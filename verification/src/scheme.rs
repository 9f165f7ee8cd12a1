//! Cooked addressing schemes: a forward decision graph of probe bundles over
//! the content, continued by a universal fallback stream.
use crate::address::AtomId;
use crate::bundle::{
    bundle_card, capacity_fold, field_views, fields_match, BundleError, ProbeBundle,
};
use crate::bundle::bundle_rank;
use crate::codec::{
    codec_cardinality, codec_symbols, lemma_codec_symbols_in_range, monic_prime_spec,
    ContentCodecDescriptor,
};
use crate::fallback::{
    lemma_four_distinct, points_ok, static_atom, v1_atom, FallbackAddress, FallbackDescriptor,
    FallbackError,
};
use crate::field::element::{fs_wf, ExplicitField, FieldSpec};
use crate::probe::{prime_field_spec, FieldDescriptor, ProbeError, ScalarProbe};
use vstd::prelude::*;

verus! {

#[derive(Clone, Debug, PartialEq, Eq)]
pub struct DecisionNode {
    pub action: ProbeBundle,
    /// Sparse branch overrides sorted by atom; an outcome without one goes to
    /// `default_child`, and `None` there means the fallback.
    pub branches: Vec<(AtomId, u32)>,
    pub default_child: Option<u32>,
}

#[derive(Clone, Debug, PartialEq, Eq)]
pub struct Scheme {
    pub capacity: u32,
    pub codec: ContentCodecDescriptor,
    pub root: Option<u32>,
    pub nodes: Vec<DecisionNode>,
    pub fallback: FallbackDescriptor,
}

#[derive(Clone, Debug, PartialEq, Eq)]
pub enum SchemeError {
    CapacityTooSmall(u32),
    InvalidRoot(u32),
    InvalidNode(u32),
    InvalidBranchOrder,
    BranchAtomOutOfRange { atom: u32, capacity: u32 },
    BranchAtomOutOfActionRange { atom: u32, outcomes: u128 },
    RootMustBeZero(u32),
    OrphanNodesWithoutRoot,
    UnreachableNode(u32),
    BackEdge { from: u32, to: u32 },
    Bundle(BundleError),
    Fallback(FallbackError),
}

/// Mathematical content of a decision node.
pub struct NodeView {
    pub probes: Seq<ScalarProbe>,
    pub branches: Seq<(AtomId, u32)>,
    pub default_child: Option<u32>,
}

/// Mathematical content of a scheme.
pub struct SchemeView {
    pub capacity: u32,
    pub codec: ContentCodecDescriptor,
    pub root: Option<u32>,
    pub nodes: Seq<NodeView>,
    pub fallback: FallbackDescriptor,
}

impl View for DecisionNode {
    type V = NodeView;

    open spec fn view(&self) -> NodeView {
        NodeView {
            probes: self.action.probes@,
            branches: self.branches@,
            default_child: self.default_child,
        }
    }
}

impl View for Scheme {
    type V = SchemeView;

    open spec fn view(&self) -> SchemeView {
        SchemeView {
            capacity: self.capacity,
            codec: self.codec,
            root: self.root,
            nodes: self.nodes@.map_values(|n: DecisionNode| n@),
            fallback: self.fallback,
        }
    }
}

/// Child of the first branch whose atom is `atom`, if any.
pub open spec fn branch_lookup(branches: Seq<(AtomId, u32)>, atom: AtomId) -> Option<u32>
    decreases branches.len(),
{
    if branches.len() == 0 {
        None
    } else {
        match branch_lookup(branches.drop_last(), atom) {
            Some(c) => Some(c),
            None => if branches.last().0 == atom {
                Some(branches.last().1)
            } else {
                None
            },
        }
    }
}

/// Successor of `node` on outcome `atom` (`None`: continue with the fallback).
pub open spec fn child_for_spec(node: NodeView, atom: AtomId) -> Option<u32> {
    match branch_lookup(node.branches, atom) {
        Some(c) => Some(c),
        None => node.default_child,
    }
}

proof fn lemma_branch_lookup_absent(branches: Seq<(AtomId, u32)>, atom: AtomId)
    requires
        forall|j: int| 0 <= j < branches.len() ==> #[trigger] branches[j].0 != atom,
    ensures
        branch_lookup(branches, atom) is None,
    decreases branches.len(),
{
    if branches.len() > 0 {
        lemma_branch_lookup_absent(branches.drop_last(), atom);
        assert(branches[branches.len() - 1].0 != atom);
    }
}

proof fn lemma_branch_lookup_first(branches: Seq<(AtomId, u32)>, atom: AtomId, j: int)
    requires
        0 <= j < branches.len(),
        branches[j].0 == atom,
        forall|k: int| 0 <= k < j ==> #[trigger] branches[k].0 != atom,
    ensures
        branch_lookup(branches, atom) == Some(branches[j].1),
    decreases branches.len(),
{
    if j == branches.len() - 1 {
        lemma_branch_lookup_absent(branches.drop_last(), atom);
    } else {
        lemma_branch_lookup_first(branches.drop_last(), atom, j);
    }
}

/// Where the node lists a branch for `atom`, the first such branch names the
/// child; an outcome that no branch lists goes to the node's default child
/// (and so to the fallback only where there is none).
pub proof fn lemma_child_for_branch_or_default(node: NodeView, atom: AtomId)
    ensures
        (forall|j: int| 0 <= j < node.branches.len() ==> #[trigger] node.branches[j].0 != atom)
            ==> child_for_spec(node, atom) == node.default_child,
        forall|j: int|
            0 <= j < node.branches.len() && #[trigger] node.branches[j].0 == atom && (forall|k: int|
                0 <= k < j ==> node.branches[k].0 != atom) ==> child_for_spec(node, atom) == Some(
                node.branches[j].1,
            ),
{
    if forall|j: int| 0 <= j < node.branches.len() ==> #[trigger] node.branches[j].0 != atom {
        lemma_branch_lookup_absent(node.branches, atom);
    }
    assert forall|j: int|
        0 <= j < node.branches.len() && #[trigger] node.branches[j].0 == atom && (forall|k: int|
            0 <= k < j ==> node.branches[k].0 != atom) implies child_for_spec(node, atom) == Some(
        node.branches[j].1,
    ) by {
        lemma_branch_lookup_first(node.branches, atom, j);
    }
}

// ---------------------------------------------------------------------------
// Validation
// ---------------------------------------------------------------------------

/// Nodes reachable before any edge is followed: the root, if there is one.
pub open spec fn initial_reach(s: SchemeView) -> Seq<bool> {
    Seq::new(s.nodes.len(), |i: int| s.root is Some && i == 0)
}

/// Mark `child` reachable when `from` is.
pub open spec fn propagate(reach: Seq<bool>, from: nat, child: nat) -> Seq<bool> {
    if reach[from as int] {
        reach.update(child as int, true)
    } else {
        reach
    }
}

/// Checks of the branches `k..` of node `from`, in order.
pub open spec fn branch_checks(
    s: SchemeView,
    from: nat,
    outcomes: u128,
    br: Seq<(AtomId, u32)>,
    k: nat,
    reach: Seq<bool>,
) -> Result<Seq<bool>, SchemeError>
    decreases br.len() - k,
{
    if k >= br.len() {
        Ok(reach)
    } else {
        let atom = br[k as int].0;
        let child = br[k as int].1;
        if atom.0 >= s.capacity {
            Err(SchemeError::BranchAtomOutOfRange { atom: atom.0, capacity: s.capacity })
        } else if atom.0 >= outcomes {
            Err(SchemeError::BranchAtomOutOfActionRange { atom: atom.0, outcomes })
        } else if k > 0 && atom.0 <= br[k - 1].0.0 {
            Err(SchemeError::InvalidBranchOrder)
        } else if child >= s.nodes.len() {
            Err(SchemeError::InvalidNode(child))
        } else if child <= (from as u32) {
            Err(SchemeError::BackEdge { from: from as u32, to: child })
        } else {
            branch_checks(s, from, outcomes, br, k + 1, propagate(reach, from, child as nat))
        }
    }
}

pub open spec fn default_check(s: SchemeView, from: nat, reach: Seq<bool>) -> Result<
    Seq<bool>,
    SchemeError,
> {
    match s.nodes[from as int].default_child {
        None => Ok(reach),
        Some(child) => if child >= s.nodes.len() {
            Err(SchemeError::InvalidNode(child))
        } else if child <= (from as u32) {
            Err(SchemeError::BackEdge { from: from as u32, to: child })
        } else {
            Ok(propagate(reach, from, child as nat))
        },
    }
}

pub open spec fn node_checks(s: SchemeView, from: nat, reach: Seq<bool>) -> Result<
    Seq<bool>,
    SchemeError,
> {
    let node = s.nodes[from as int];
    if node.probes.len() == 0 {
        Err(SchemeError::Bundle(BundleError::Empty))
    } else {
        match capacity_fold(node.probes, s.capacity, node.probes.len()) {
            Err(e) => Err(SchemeError::Bundle(e)),
            Ok(o) => match branch_checks(s, from, o, node.branches, 0, reach) {
                Err(e) => Err(e),
                Ok(r2) => default_check(s, from, r2),
            },
        }
    }
}

/// Checks of the first `n` nodes, with the reachability found so far.
pub open spec fn nodes_checks(s: SchemeView, n: nat) -> Result<Seq<bool>, SchemeError>
    decreases n,
{
    if n == 0 {
        Ok(initial_reach(s))
    } else {
        match nodes_checks(s, (n - 1) as nat) {
            Err(e) => Err(e),
            Ok(r) => node_checks(s, (n - 1) as nat, r),
        }
    }
}

/// First index `>= i` not marked reachable.
pub open spec fn first_unreached(reach: Seq<bool>, i: nat) -> Option<nat>
    decreases reach.len() - i,
{
    if i >= reach.len() {
        None
    } else if !reach[i as int] {
        Some(i)
    } else {
        first_unreached(reach, i + 1)
    }
}

/// Outcome of scheme validation, check by check.
pub open spec fn validate_spec(s: SchemeView) -> Result<(), SchemeError> {
    if s.capacity < 2 {
        Err(SchemeError::CapacityTooSmall(s.capacity))
    } else if s.fallback.validate_spec(s.capacity) is Err {
        Err(SchemeError::Fallback(s.fallback.validate_spec(s.capacity)->Err_0))
    } else if s.root is None && s.nodes.len() > 0 {
        Err(SchemeError::OrphanNodesWithoutRoot)
    } else if s.root is Some && s.root->0 >= s.nodes.len() {
        Err(SchemeError::InvalidRoot(s.root->0))
    } else if s.root is Some && s.root->0 != 0 {
        Err(SchemeError::RootMustBeZero(s.root->0))
    } else {
        match nodes_checks(s, s.nodes.len()) {
            Err(e) => Err(e),
            Ok(reach) => match first_unreached(reach, 0) {
                Some(i) => Err(SchemeError::UnreachableNode(i as u32)),
                None => Ok(()),
            },
        }
    }
}

/// A standardized field could not be constructed: the error validation or
/// compilation reports when building an extension field fails.
pub open spec fn construction_failure(e: SchemeError) -> bool {
    (e matches SchemeError::Bundle(BundleError::Probe(ProbeError::StandardFf(_)))) || e == SchemeError::Fallback(
        FallbackError::InvalidStaticField,
    )
}

/// Every probe field of the scheme has degree 1, so validation never needs
/// more than a prime field.
pub open spec fn scheme_simple(s: SchemeView) -> bool {
    &&& s.fallback.simple()
    &&& forall|n: int, i: int|
        0 <= n < s.nodes.len() && 0 <= i < s.nodes[n].probes.len() ==> (
        #[trigger] s.nodes[n].probes[i]).descriptor().degree == 1
}

proof fn lemma_branch_lookup_prefix(b: Seq<(AtomId, u32)>, atom: AtomId, j: nat)
    requires
        j <= b.len(),
        branch_lookup(b.take(j as int), atom) is Some,
    ensures
        branch_lookup(b, atom) == branch_lookup(b.take(j as int), atom),
    decreases b.len() - j,
{
    if j < b.len() {
        assert(b.take((j + 1) as int).drop_last() =~= b.take(j as int));
        lemma_branch_lookup_prefix(b, atom, j + 1);
    } else {
        assert(b.take(j as int) =~= b);
    }
}

/// The checks before the nodes pass.
pub open spec fn prechecks_ok(s: SchemeView) -> bool {
    &&& s.capacity >= 2
    &&& s.fallback.validate_spec(s.capacity) is Ok
    &&& !(s.root is None && s.nodes.len() > 0)
    &&& !(s.root is Some && s.root->0 >= s.nodes.len())
    &&& !(s.root is Some && s.root->0 != 0)
}

/// A failure at node `from` is the outcome of validation.
proof fn lemma_fail_at_node(s: SchemeView, from: nat, reach0: Seq<bool>, e: SchemeError)
    requires
        prechecks_ok(s),
        from < s.nodes.len(),
        nodes_checks(s, from) == Ok::<Seq<bool>, SchemeError>(reach0),
        node_checks(s, from, reach0) == Err::<Seq<bool>, SchemeError>(e),
    ensures
        validate_spec(s) == Err::<(), SchemeError>(e),
{
    lemma_nodes_checks_err(s, from + 1, s.nodes.len());
}

proof fn lemma_nodes_checks_err(s: SchemeView, k: nat, n: nat)
    requires
        k <= n,
        nodes_checks(s, k) is Err,
    ensures
        nodes_checks(s, n) == nodes_checks(s, k),
    decreases n - k,
{
    if k < n {
        lemma_nodes_checks_err(s, k, (n - 1) as nat);
    }
}

impl DecisionNode {
    /// Successor on outcome `atom`: the branch for `atom`, else the default.
    pub fn child_for(&self, atom: AtomId) -> (r: Option<u32>)
        ensures
            r == child_for_spec(self@, atom),
    {
        let ghost b = self.branches@;
        let mut k: usize = 0;
        proof {
            assert(b.take(0) =~= Seq::<(AtomId, u32)>::empty());
        }
        while k < self.branches.len()
            invariant
                b == self.branches@,
                k <= b.len(),
                branch_lookup(b.take(k as int), atom) is None,
            decreases b.len() - k,
        {
            let (key, child) = self.branches[k];
            proof {
                assert(b.take((k + 1) as int).drop_last() =~= b.take(k as int));
            }
            if key == atom {
                proof {
                    lemma_branch_lookup_prefix(b, atom, (k + 1) as nat);
                }
                return Some(child);
            }
            k = k + 1;
        }
        proof {
            assert(b.take(b.len() as int) =~= b);
        }
        self.default_child
    }
}

impl DecisionNode {
    /// Field-for-field copy.
    pub fn duplicate(&self) -> (r: DecisionNode)
        ensures
            r@ == self@,
    {
        let mut probes: Vec<ScalarProbe> = Vec::new();
        let mut i: usize = 0;
        while i < self.action.probes.len()
            invariant
                i <= self.action.probes@.len(),
                probes@ == self.action.probes@.take(i as int),
            decreases self.action.probes@.len() - i,
        {
            probes.push(self.action.probes[i]);
            i = i + 1;
            proof {
                assert(probes@ =~= self.action.probes@.take(i as int));
            }
        }
        let mut branches: Vec<(AtomId, u32)> = Vec::new();
        let mut k: usize = 0;
        while k < self.branches.len()
            invariant
                k <= self.branches@.len(),
                branches@ == self.branches@.take(k as int),
            decreases self.branches@.len() - k,
        {
            branches.push(self.branches[k]);
            k = k + 1;
            proof {
                assert(branches@ =~= self.branches@.take(k as int));
            }
        }
        proof {
            assert(probes@ =~= self.action.probes@);
            assert(branches@ =~= self.branches@);
        }
        DecisionNode {
            action: ProbeBundle { probes },
            branches,
            default_child: self.default_child,
        }
    }
}

/// Equality of fallback descriptors.
fn fallback_same(a: &FallbackDescriptor, b: &FallbackDescriptor) -> (r: bool)
    ensures
        r == (*a == *b),
{
    match (a, b) {
        (FallbackDescriptor::DirectRadixV1, FallbackDescriptor::DirectRadixV1) => true,
        (
            FallbackDescriptor::StaticPolynomialV2 { codec: c1, field: f1, optimized_points: p1 },
            FallbackDescriptor::StaticPolynomialV2 { codec: c2, field: f2, optimized_points: p2 },
        ) => {
            if *c1 == *c2 && *f1 == *f2 && p1[0] == p2[0] && p1[1] == p2[1] && p1[2] == p2[2] && p1[3] == p2[3] {
                proof {
                    assert(*p1 =~= *p2);
                }
                true
            } else {
                false
            }
        },
        _ => false,
    }
}

impl DecisionNode {
    /// Equality of the nodes' mathematical content.
    pub fn is_same(&self, other: &DecisionNode) -> (r: bool)
        ensures
            r == (self@ == other@),
    {
        let p1 = &self.action.probes;
        let p2 = &other.action.probes;
        if p1.len() != p2.len() {
            return false;
        }
        let mut i: usize = 0;
        while i < p1.len()
            invariant
                p1@ == self@.probes,
                p2@ == other@.probes,
                p1@.len() == p2@.len(),
                i <= p1@.len(),
                forall|k: int| 0 <= k < i ==> p1@[k] == p2@[k],
            decreases p1@.len() - i,
        {
            if p1[i] != p2[i] {
                return false;
            }
            i = i + 1;
        }
        proof {
            assert(p1@ =~= p2@);
        }
        let b1 = &self.branches;
        let b2 = &other.branches;
        if b1.len() != b2.len() {
            return false;
        }
        let mut j: usize = 0;
        while j < b1.len()
            invariant
                b1@ == self@.branches,
                b2@ == other@.branches,
                b1@.len() == b2@.len(),
                j <= b1@.len(),
                forall|k: int| 0 <= k < j ==> b1@[k] == b2@[k],
            decreases b1@.len() - j,
        {
            let (a1, c1) = b1[j];
            let (a2, c2) = b2[j];
            if a1 != a2 || c1 != c2 {
                return false;
            }
            j = j + 1;
        }
        proof {
            assert(b1@ =~= b2@);
        }
        match (self.default_child, other.default_child) {
            (Some(x), Some(y)) => x == y,
            (None, None) => true,
            _ => false,
        }
    }
}

impl Scheme {
    /// Equality of the schemes' mathematical content.
    pub fn is_same(&self, other: &Scheme) -> (r: bool)
        ensures
            r == (self@ == other@),
    {
        if self.capacity != other.capacity || self.codec != other.codec {
            return false;
        }
        let roots = match (self.root, other.root) {
            (Some(x), Some(y)) => x == y,
            (None, None) => true,
            _ => false,
        };
        if !roots {
            return false;
        }
        if !fallback_same(&self.fallback, &other.fallback) {
            return false;
        }
        if self.nodes.len() != other.nodes.len() {
            proof {
                assert(self@.nodes.len() == self.nodes@.len());
                assert(other@.nodes.len() == other.nodes@.len());
            }
            return false;
        }
        let mut i: usize = 0;
        while i < self.nodes.len()
            invariant
                self.nodes@.len() == other.nodes@.len(),
                i <= self.nodes@.len(),
                forall|k: int| 0 <= k < i ==> self.nodes@[k]@ == other.nodes@[k]@,
            decreases self.nodes@.len() - i,
        {
            if !self.nodes[i].is_same(&other.nodes[i]) {
                proof {
                    assert(self@.nodes[i as int] == self.nodes@[i as int]@);
                    assert(other@.nodes[i as int] == other.nodes@[i as int]@);
                }
                return false;
            }
            i = i + 1;
        }
        proof {
            assert(self@.nodes =~= other@.nodes);
        }
        true
    }
}

impl Scheme {
    /// A scheme with no decision nodes: the direct-radix stream from the first
    /// atom on.
    pub fn fallback_only(capacity: u32, codec: ContentCodecDescriptor) -> (r: Result<Self, SchemeError>)
        ensures
            capacity < 2 ==> r == Err::<Self, SchemeError>(SchemeError::CapacityTooSmall(capacity)),
            capacity >= 2 ==> (r matches Ok(s) && s.capacity == capacity && s.codec == codec
                && s.root is None && s.nodes@.len() == 0 && s.fallback
                == FallbackDescriptor::DirectRadixV1 && validate_spec(s@) is Ok),
    {
        let scheme = Scheme {
            capacity,
            codec,
            root: None,
            nodes: Vec::new(),
            fallback: FallbackDescriptor::DirectRadixV1,
        };
        proof {
            assert(scheme@.nodes.len() == 0);
            assert(nodes_checks(scheme@, 0) == Ok::<Seq<bool>, SchemeError>(initial_reach(scheme@)));
            assert(first_unreached(initial_reach(scheme@), 0) is None);
        }
        match scheme.validate() {
            Ok(()) => Ok(scheme),
            Err(e) => Err(e),
        }
    }

    /// Field-for-field copy.
    pub fn duplicate(&self) -> (r: Scheme)
        ensures
            r@ == self@,
    {
        let mut nodes: Vec<DecisionNode> = Vec::new();
        let mut i: usize = 0;
        while i < self.nodes.len()
            invariant
                i <= self.nodes@.len(),
                nodes@.len() == i,
                forall|k: int| 0 <= k < i ==> (#[trigger] nodes@[k])@ == self.nodes@[k]@,
            decreases self.nodes@.len() - i,
        {
            nodes.push(self.nodes[i].duplicate());
            i = i + 1;
        }
        let r = Scheme {
            capacity: self.capacity,
            codec: self.codec,
            root: self.root,
            nodes,
            fallback: self.fallback,
        };
        proof {
            assert(r@.nodes =~= self@.nodes);
        }
        r
    }

    /// Check the scheme: capacity, fallback, root, every node's bundle and
    /// branches (sorted, in range, forward edges only), and reachability of
    /// every node from the root.
    pub fn validate(&self) -> (r: Result<(), SchemeError>)
        ensures
            scheme_simple(self@) ==> r == validate_spec(self@),
            r is Ok ==> validate_spec(self@) is Ok,
            r == validate_spec(self@) || (r matches Err(e) && construction_failure(e)),
    {
        let ghost sv = self@;
        if self.capacity < 2 {
            return Err(SchemeError::CapacityTooSmall(self.capacity));
        }
        match self.fallback.validate(self.capacity) {
            Ok(()) => {},
            Err(e) => {
                return Err(SchemeError::Fallback(e));
            },
        }
        let n = self.nodes.len();
        match self.root {
            None => {
                if n > 0 {
                    return Err(SchemeError::OrphanNodesWithoutRoot);
                }
            },
            Some(root) => {
                if root as usize >= n {
                    return Err(SchemeError::InvalidRoot(root));
                }
                if root != 0 {
                    return Err(SchemeError::RootMustBeZero(root));
                }
            },
        }
        let mut reachable: Vec<bool> = Vec::new();
        let mut i: usize = 0;
        while i < n
            invariant
                n == sv.nodes.len(),
                sv == self@,
                i <= n,
                reachable@ == initial_reach(sv).take(i as int),
            decreases n - i,
        {
            reachable.push(self.root.is_some() && i == 0);
            i = i + 1;
            proof {
                assert(reachable@ =~= initial_reach(sv).take(i as int));
            }
        }
        proof {
            assert(reachable@ =~= initial_reach(sv));
        }
        proof {
            assert(prechecks_ok(sv));
        }
        let mut from: usize = 0;
        while from < n
            invariant
                n == sv.nodes.len(),
                sv == self@,
                from <= n,
                sv.capacity >= 2,
                nodes_checks(sv, from as nat) == Ok::<Seq<bool>, SchemeError>(reachable@),
                reachable@.len() == n,
                prechecks_ok(sv),
            decreases n - from,
        {
            let node = &self.nodes[from];
            let ghost nv = node@;
            proof {
                assert(sv.nodes[from as int] == nv);
            }
            let outcomes = match node.action.validate(self.capacity) {
                Ok(o) => o,
                Err(e) => {
                    proof {
                        if scheme_simple(sv) {
                            assert forall|t: int| 0 <= t < nv.probes.len() implies (
                            #[trigger] nv.probes[t]).descriptor().degree == 1 by {
                                assert(sv.nodes[from as int].probes[t] == nv.probes[t]);
                            }
                            lemma_nodes_checks_err(sv, (from + 1) as nat, n as nat);
                        }
                        if !(e matches BundleError::Probe(ProbeError::StandardFf(_))) {
                            lemma_nodes_checks_err(sv, (from + 1) as nat, n as nat);
                        }
                    }
                    return Err(SchemeError::Bundle(e));
                },
            };
            let ghost reach0 = reachable@;
            let mut k: usize = 0;
            let mut prev: Option<u32> = None;
            while k < node.branches.len()
                invariant
                    n == sv.nodes.len(),
                    sv == self@,
                    nv == sv.nodes[from as int],
                    nv == node@,
                    from < n,
                    k <= nv.branches.len(),
                    reachable@.len() == n,
                    k == 0 ==> prev is None,
                    k > 0 ==> prev == Some(nv.branches[k - 1].0.0),
                    prechecks_ok(sv),
                    nodes_checks(sv, from as nat) == Ok::<Seq<bool>, SchemeError>(reach0),
                    nv.probes.len() > 0,
                    capacity_fold(nv.probes, sv.capacity, nv.probes.len()) == Ok::<u128, BundleError>(
                        outcomes,
                    ),
                    branch_checks(sv, from as nat, outcomes, nv.branches, 0, reach0) == branch_checks(
                        sv,
                        from as nat,
                        outcomes,
                        nv.branches,
                        k as nat,
                        reachable@,
                    ),
                decreases nv.branches.len() - k,
            {
                let (atom, child) = node.branches[k];
                if atom.0 >= self.capacity {
                    proof {
                        lemma_fail_at_node(sv, from as nat, reach0, SchemeError::BranchAtomOutOfRange { atom: atom.0, capacity: self.capacity });
                    }
                    return Err(
                        SchemeError::BranchAtomOutOfRange { atom: atom.0, capacity: self.capacity },
                    );
                }
                if atom.0 as u128 >= outcomes {
                    proof {
                        lemma_fail_at_node(sv, from as nat, reach0, SchemeError::BranchAtomOutOfActionRange { atom: atom.0, outcomes });
                    }
                    return Err(SchemeError::BranchAtomOutOfActionRange { atom: atom.0, outcomes });
                }
                match prev {
                    Some(p) => {
                        if atom.0 <= p {
                            proof {
                                lemma_fail_at_node(sv, from as nat, reach0, SchemeError::InvalidBranchOrder);
                            }
                            return Err(SchemeError::InvalidBranchOrder);
                        }
                    },
                    None => {},
                }
                prev = Some(atom.0);
                if child as usize >= n {
                    proof {
                        lemma_fail_at_node(sv, from as nat, reach0, SchemeError::InvalidNode(child));
                    }
                    return Err(SchemeError::InvalidNode(child));
                }
                if child <= from as u32 {
                    proof {
                        lemma_fail_at_node(sv, from as nat, reach0, SchemeError::BackEdge { from: from as u32, to: child });
                    }
                    return Err(SchemeError::BackEdge { from: from as u32, to: child });
                }
                let ghost before = reachable@;
                if reachable[from] {
                    reachable.set(child as usize, true);
                }
                proof {
                    assert(reachable@ =~= propagate(before, from as nat, child as nat));
                    assert(branch_checks(sv, from as nat, outcomes, nv.branches, k as nat, before)
                        == branch_checks(
                        sv,
                        from as nat,
                        outcomes,
                        nv.branches,
                        (k + 1) as nat,
                        reachable@,
                    ));
                }
                k = k + 1;
            }
            let ghost after_branches = reachable@;
            proof {
                assert(branch_checks(sv, from as nat, outcomes, nv.branches, k as nat, reachable@) == Ok::<
                    Seq<bool>,
                    SchemeError,
                >(reachable@));
            }
            match node.default_child {
                Some(child) => {
                    if child as usize >= n {
                        proof {
                            lemma_fail_at_node(sv, from as nat, reach0, SchemeError::InvalidNode(child));
                        }
                        return Err(SchemeError::InvalidNode(child));
                    }
                    if child <= from as u32 {
                        proof {
                            lemma_fail_at_node(sv, from as nat, reach0, SchemeError::BackEdge { from: from as u32, to: child });
                        }
                        return Err(SchemeError::BackEdge { from: from as u32, to: child });
                    }
                    if reachable[from] {
                        reachable.set(child as usize, true);
                    }
                    proof {
                        assert(reachable@ =~= propagate(after_branches, from as nat, child as nat));
                    }
                },
                None => {},
            }
            proof {
                assert(default_check(sv, from as nat, after_branches) == Ok::<Seq<bool>, SchemeError>(
                    reachable@,
                ));
                assert(node_checks(sv, from as nat, reach0) == Ok::<Seq<bool>, SchemeError>(reachable@));
                assert(nodes_checks(sv, (from + 1) as nat) == Ok::<Seq<bool>, SchemeError>(reachable@));
            }
            from = from + 1;
        }
        let mut j: usize = 0;
        while j < n
            invariant
                j <= n,
                reachable@.len() == n,
                n == sv.nodes.len(),
                sv == self@,
                prechecks_ok(sv),
                nodes_checks(sv, n as nat) == Ok::<Seq<bool>, SchemeError>(reachable@),
                first_unreached(reachable@, 0) == first_unreached(reachable@, j as nat),
            decreases n - j,
        {
            if !reachable[j] {
                return Err(SchemeError::UnreachableNode(j as u32));
            }
            j = j + 1;
        }
        Ok(())
    }
}

// ---------------------------------------------------------------------------
// Compiled schemes and the address stream
// ---------------------------------------------------------------------------

/// A validated scheme with the field of every probe constructed.
#[derive(Debug, PartialEq, Eq)]
pub struct CompiledScheme {
    scheme: Scheme,
    fields: Vec<Vec<ExplicitField>>,
    fallback_field: Option<ExplicitField>,
}

/// Mathematical content of a compiled scheme: the scheme and the fields its
/// probes are evaluated in.
pub struct CompiledView {
    pub scheme: SchemeView,
    pub fields: Seq<Seq<FieldSpec>>,
    pub fallback_field: Option<FieldSpec>,
}

impl View for CompiledScheme {
    type V = CompiledView;

    closed spec fn view(&self) -> CompiledView {
        CompiledView {
            scheme: self.scheme@,
            fields: self.fields@.map_values(|v: Vec<ExplicitField>| field_views(v@)),
            fallback_field: match &self.fallback_field {
                Some(f) => Some(f@),
                None => None,
            },
        }
    }
}

/// The fields a scheme all of whose probes have degree 1 is compiled with:
/// the prime fields of the probes.
pub open spec fn simple_view(s: SchemeView) -> CompiledView {
    CompiledView {
        scheme: s,
        fields: s.nodes.map_values(
            |n: NodeView|
                n.probes.map_values(
                    |pr: ScalarProbe| prime_field_spec(pr.descriptor().characteristic as nat),
                ),
        ),
        fallback_field: match s.fallback {
            FallbackDescriptor::DirectRadixV1 => None,
            FallbackDescriptor::StaticPolynomialV2 { field, .. } => Some(
                prime_field_spec(field.characteristic as nat),
            ),
        },
    }
}

/// Atom of decision node `n` for `bytes`.
pub open spec fn node_atom(cv: CompiledView, n: nat, bytes: Seq<u8>) -> AtomId {
    AtomId(
        bundle_rank(
            cv.fields[n as int],
            cv.scheme.nodes[n as int].probes,
            codec_symbols(cv.scheme.codec, bytes),
            codec_cardinality(cv.scheme.codec) as nat,
            cv.scheme.nodes[n as int].probes.len(),
        ) as u32,
    )
}

/// Atom `d` of the fallback continuation of `bytes`.
pub open spec fn fallback_atom(cv: CompiledView, bytes: Seq<u8>, d: nat) -> AtomId {
    match cv.scheme.fallback {
        FallbackDescriptor::DirectRadixV1 => AtomId(v1_atom(bytes, cv.scheme.capacity as nat, d)),
        FallbackDescriptor::StaticPolynomialV2 { codec, optimized_points, .. } => {
            let f = cv.fallback_field->0;
            AtomId(static_atom(f, monic_prime_spec(codec, bytes, f.p), optimized_points@, d))
        },
    }
}

/// Position in the stream: the next decision node, or the next depth in the
/// fallback continuation.
pub enum WalkState {
    Tree(nat),
    Fallback(nat),
}

/// Position after the first `i` atoms of the stream of `bytes`.
pub open spec fn walk(cv: CompiledView, bytes: Seq<u8>, i: nat) -> WalkState
    decreases i,
{
    if i == 0 {
        match cv.scheme.root {
            Some(r) => WalkState::Tree(r as nat),
            None => WalkState::Fallback(0),
        }
    } else {
        match walk(cv, bytes, (i - 1) as nat) {
            WalkState::Tree(n) => match child_for_spec(
                cv.scheme.nodes[n as int],
                node_atom(cv, n, bytes),
            ) {
                Some(c) => WalkState::Tree(c as nat),
                None => WalkState::Fallback(0),
            },
            WalkState::Fallback(d) => WalkState::Fallback(d + 1),
        }
    }
}

/// Atom `i` of the address stream of `bytes`.
pub open spec fn stream_atom(cv: CompiledView, bytes: Seq<u8>, i: nat) -> AtomId {
    match walk(cv, bytes, i) {
        WalkState::Tree(n) => node_atom(cv, n, bytes),
        WalkState::Fallback(d) => fallback_atom(cv, bytes, d),
    }
}

/// The first `n` atoms of the address stream of `bytes`.
pub open spec fn stream_prefix(cv: CompiledView, bytes: Seq<u8>, n: nat) -> Seq<AtomId> {
    Seq::new(n, |i: int| stream_atom(cv, bytes, i as nat))
}

/// Content lengths whose symbol strings and coefficient vectors fit in usize.
pub open spec fn bytes_ok(len: nat) -> bool {
    len * 32 < usize::MAX
}

/// Consistency of a compiled view: a valid scheme whose probes and fallback
/// are evaluated in well-formed fields of the right orders.
pub open spec fn compiled_ok(cv: CompiledView) -> bool {
    let s = cv.scheme;
    &&& validate_spec(s) is Ok
    &&& cv.fields.len() == s.nodes.len()
    &&& forall|n: int|
        0 <= n < s.nodes.len() ==> {
            &&& (#[trigger] cv.fields[n]).len() == s.nodes[n].probes.len()
            &&& forall|i: int|
                0 <= i < cv.fields[n].len() ==> {
                    &&& fs_wf(#[trigger] cv.fields[n][i])
                    &&& cv.fields[n][i].card == s.nodes[n].probes[i].descriptor().order_spec()
                }
        }
    &&& match s.fallback {
        FallbackDescriptor::DirectRadixV1 => cv.fallback_field is None,
        FallbackDescriptor::StaticPolynomialV2 { field, optimized_points, .. } => {
            &&& cv.fallback_field matches Some(f)
            &&& fs_wf(f)
            &&& f.p == field.characteristic && f.degree == field.degree
            &&& f.card == field.order_spec()
            &&& f.card >= 3
            &&& points_ok(optimized_points@, f.card)
        },
    }
}

proof fn lemma_capacity_fold_card(
    probes: Seq<ScalarProbe>,
    capacity: u32,
    fields: Seq<FieldSpec>,
    n: nat,
    o: u128,
)
    requires
        n <= probes.len(),
        n <= fields.len(),
        capacity_fold(probes, capacity, n) == Ok::<u128, BundleError>(o),
        forall|i: int| 0 <= i < n ==> (#[trigger] fields[i]).card == probes[i].descriptor().order_spec(),
    ensures
        bundle_card(fields, n) == o,
        forall|i: int|
            0 <= i < n ==> probes[i].point_rank < (#[trigger] fields[i]).card,
        n > 0 ==> o <= capacity,

    decreases n,
{
    if n > 0 {
        let prev = capacity_fold(probes, capacity, (n - 1) as nat);
        assert(prev is Ok);
        lemma_capacity_fold_card(probes, capacity, fields, (n - 1) as nat, prev->Ok_0);
        let pr = probes[n - 1];
        let d = pr.descriptor();
        assert(pr.field_cardinality_spec() is Ok);
        assert(d.validate_spec() is Ok);
        vstd::arithmetic::power::lemma_pow_positive(d.characteristic as int, d.degree as nat);
        assert(d.order_spec() < 0x1_0000_0000_0000_0000_0000_0000_0000_0000);
        assert(pr.field_cardinality_spec() == Ok::<u128, ProbeError>(d.order_spec() as u128));
        assert(fields[n - 1].card == d.order_spec());
    }
}

proof fn lemma_capacity_fold_ok(probes: Seq<ScalarProbe>, capacity: u32, n: nat)
    requires
        n <= probes.len(),
        capacity_fold(probes, capacity, n) is Ok,
    ensures
        forall|i: int| 0 <= i < n ==> (#[trigger] probes[i]).field_cardinality_spec() is Ok,
    decreases n,
{
    if n > 0 {
        lemma_capacity_fold_ok(probes, capacity, (n - 1) as nat);
    }
}

impl CompiledScheme {
    pub closed spec fn wf(&self) -> bool {
        &&& compiled_ok(self@)
        &&& self.fields@.len() == self.scheme.nodes@.len()
        &&& forall|n: int|
            0 <= n < self.fields@.len() ==> fields_match(
                (#[trigger] self.fields@[n])@,
                self.scheme.nodes@[n].action.probes@,
                self.scheme.capacity as nat,
            )
        &&& match &self.fallback_field {
            Some(f) => f.wf(),
            None => true,
        }
    }

    /// The scheme this was compiled from.
    pub fn scheme(&self) -> (r: &Scheme)
        ensures
            r@ == self@.scheme,
    {
        &self.scheme
    }

    /// Field-for-field copy.
    pub fn duplicate(&self) -> (r: CompiledScheme)
        requires
            self.wf(),
        ensures
            r@ == self@,
            r.wf(),
    {
        let scheme = self.scheme.duplicate();
        let mut fields: Vec<Vec<ExplicitField>> = Vec::new();
        let mut n: usize = 0;
        while n < self.fields.len()
            invariant
                self.wf(),
                n <= self.fields@.len(),
                fields@.len() == n,
                forall|k: int|
                    0 <= k < n ==> field_views((#[trigger] fields@[k])@) == field_views(self.fields@[k]@),
                forall|k: int|
                    0 <= k < n ==> fields_match(
                        (#[trigger] fields@[k])@,
                        self.scheme.nodes@[k].action.probes@,
                        self.scheme.capacity as nat,
                    ),
            decreases self.fields@.len() - n,
        {
            let src = &self.fields[n];
            let mut row: Vec<ExplicitField> = Vec::new();
            let mut i: usize = 0;
            proof {
                assert(fields_match(src@, self.scheme.nodes@[n as int].action.probes@, self.scheme.capacity as nat));
            }
            while i < src.len()
                invariant
                    i <= src@.len(),
                    row@.len() == i,
                    forall|t: int| 0 <= t < src@.len() ==> (#[trigger] src@[t]).wf(),
                    forall|t: int| 0 <= t < i ==> (#[trigger] row@[t])@ == src@[t]@ && row@[t].wf(),
                decreases src@.len() - i,
            {
                row.push(src[i].duplicate());
                i = i + 1;
            }
            proof {
                assert(field_views(row@) =~= field_views(src@));
            }
            fields.push(row);
            n = n + 1;
        }
        let fallback_field = match &self.fallback_field {
            Some(f) => Some(f.duplicate()),
            None => None,
        };
        let r = CompiledScheme { scheme, fields, fallback_field };
        proof {
            assert forall|k: int| 0 <= k < r.scheme.nodes@.len() implies #[trigger] r.scheme.nodes@[k].action.probes@
                == self.scheme.nodes@[k].action.probes@ by {
                assert(r.scheme@.nodes[k] == self.scheme@.nodes[k]);
            }
            assert(r.fields@.map_values(|v: Vec<ExplicitField>| field_views(v@)) =~= self.fields@.map_values(
                |v: Vec<ExplicitField>| field_views(v@),
            ));
            assert(r@ == self@);
        }
        r
    }
}

/// A valid scheme's nodes all pass their bundle checks.
proof fn lemma_nodes_valid(s: SchemeView, k: nat)
    requires
        k <= s.nodes.len(),
        nodes_checks(s, k) is Ok,
    ensures
        forall|n: int|
            0 <= n < k ==> (#[trigger] s.nodes[n]).probes.len() > 0 && capacity_fold(
                s.nodes[n].probes,
                s.capacity,
                s.nodes[n].probes.len(),
            ) is Ok,
    decreases k,
{
    if k > 0 {
        let prev = nodes_checks(s, (k - 1) as nat);
        assert(prev is Ok);
        lemma_nodes_valid(s, (k - 1) as nat);
    }
}

impl Scheme {
    /// Validate the scheme and construct the field of every probe.
    pub fn compile(&self) -> (r: Result<CompiledScheme, SchemeError>)
        ensures
            scheme_simple(self@) && validate_spec(self@) is Err ==> r == Err::<
                CompiledScheme,
                SchemeError,
            >(validate_spec(self@)->Err_0),
            r matches Ok(cs) ==> cs.wf() && cs@.scheme == self@,
            scheme_simple(self@) && validate_spec(self@) is Ok ==> (r matches Ok(cs) && cs@
                == simple_view(self@)),
            validate_spec(self@) is Err ==> r is Err,
            r matches Err(e) ==> validate_spec(self@) == Err::<(), SchemeError>(e) || construction_failure(e),
    {
        match self.validate() {
            Ok(()) => {},
            Err(e) => {
                return Err(e);
            },
        }
        let ghost sv = self@;
        proof {
            lemma_nodes_valid(sv, sv.nodes.len());
        }
        let mut fields: Vec<Vec<ExplicitField>> = Vec::new();
        let mut n: usize = 0;
        while n < self.nodes.len()
            invariant
                sv == self@,
                validate_spec(sv) is Ok,
                n <= sv.nodes.len(),
                fields@.len() == n,
                forall|m: int|
                    0 <= m < sv.nodes.len() ==> (#[trigger] sv.nodes[m]).probes.len() > 0
                        && capacity_fold(sv.nodes[m].probes, sv.capacity, sv.nodes[m].probes.len()) is Ok,
                forall|m: int|
                    0 <= m < n ==> {
                        &&& (#[trigger] fields@[m])@.len() == sv.nodes[m].probes.len()
                        &&& forall|i: int|
                            0 <= i < fields@[m]@.len() ==> (#[trigger] fields@[m]@[i]).wf()
                                && fields@[m]@[i]@.card == sv.nodes[m].probes[i].descriptor().order_spec()
                                && fields@[m]@[i]@.p == sv.nodes[m].probes[i].descriptor().characteristic
                                && (sv.nodes[m].probes[i].descriptor().degree == 1 ==> fields@[m]@[i]@
                                == prime_field_spec(sv.nodes[m].probes[i].descriptor().characteristic as nat))
                    },
            decreases sv.nodes.len() - n,
        {
            let probes = &self.nodes[n].action.probes;
            let ghost pv = probes@;
            proof {
                assert(sv.nodes[n as int].probes == pv);
                lemma_capacity_fold_ok(pv, sv.capacity, pv.len());
                if scheme_simple(sv) {
                    assert forall|t: int| 0 <= t < pv.len() implies (#[trigger] pv[t]).descriptor().degree == 1 by {
                        assert(sv.nodes[n as int].probes[t] == pv[t]);
                    }
                }
            }
            let mut row: Vec<ExplicitField> = Vec::new();
            let mut i: usize = 0;
            while i < probes.len()
                invariant
                    i <= pv.len(),
                    pv == probes@,
                    row@.len() == i,
                    sv == self@,
                    validate_spec(sv) is Ok,
                    forall|t: int| 0 <= t < pv.len() ==> (#[trigger] pv[t]).field_cardinality_spec() is Ok,
                    scheme_simple(sv) ==> forall|t: int| 0 <= t < pv.len() ==> (#[trigger] pv[t]).descriptor().degree == 1,
                    forall|t: int|
                        0 <= t < i ==> (#[trigger] row@[t]).wf() && row@[t]@.card
                            == pv[t].descriptor().order_spec() && row@[t]@.p == pv[t].descriptor().characteristic
                            && (pv[t].descriptor().degree == 1 ==> row@[t]@ == prime_field_spec(
                            pv[t].descriptor().characteristic as nat,
                        )),
                decreases pv.len() - i,
            {
                let FieldDescriptor::Standard(desc) = probes[i].field;
                match desc.instantiate() {
                    Ok(f) => {
                        proof {
                            if desc.degree == 1 {
                                vstd::arithmetic::power::lemma_pow1(desc.characteristic as int);
                            }
                        }
                        row.push(f);
                    },
                    Err(e) => {
                        proof {
                            assert(pv[i as int].field_cardinality_spec() is Ok);
                            if scheme_simple(sv) {
                                assert(pv[i as int].descriptor().degree == 1);
                            }
                        }
                        return Err(SchemeError::Bundle(BundleError::Probe(ProbeError::StandardFf(e))));
                    },
                }
                i = i + 1;
            }
            fields.push(row);
            n = n + 1;
        }
        let fallback_field = match self.fallback {
            FallbackDescriptor::DirectRadixV1 => None,
            FallbackDescriptor::StaticPolynomialV2 { field, .. } => match field.instantiate() {
                Ok(f) => {
                    proof {
                        if field.degree == 1 {
                            vstd::arithmetic::power::lemma_pow1(field.characteristic as int);
                        }
                    }
                    Some(f)
                },
                Err(_) => {
                    return Err(SchemeError::Fallback(FallbackError::InvalidStaticField));
                },
            },
        };
        let cs = CompiledScheme { scheme: self.duplicate(), fields, fallback_field };
        proof {
            let cv = cs@;
            assert forall|m: int| 0 <= m < cs.fields@.len() implies fields_match(
                (#[trigger] cs.fields@[m])@,
                cs.scheme.nodes@[m].action.probes@,
                cs.scheme.capacity as nat,
            ) by {
                assert(cs.scheme@.nodes[m] == sv.nodes[m]);
                assert(cs.scheme.nodes@[m].action.probes@ == sv.nodes[m].probes);
                let fm = cs.fields@[m]@;
                let o = capacity_fold(sv.nodes[m].probes, sv.capacity, sv.nodes[m].probes.len())->Ok_0;
                assert forall|i: int| 0 <= i < fm.len() implies (#[trigger] field_views(fm)[i]).card
                    == sv.nodes[m].probes[i].descriptor().order_spec() by {
                    assert(field_views(fm)[i] == fm[i]@);
                }
                lemma_capacity_fold_card(sv.nodes[m].probes, sv.capacity, field_views(fm), fm.len(), o);
                assert forall|i: int| 0 <= i < fm.len() implies sv.nodes[m].probes[i].point_rank < (#[trigger] fm[i])@.card by {
                    assert(field_views(fm)[i] == fm[i]@);
                }
            }
            assert forall|m: int| 0 <= m < sv.nodes.len() implies {
                &&& (#[trigger] cv.fields[m]).len() == sv.nodes[m].probes.len()
                &&& forall|i: int|
                    0 <= i < cv.fields[m].len() ==> {
                        &&& fs_wf(#[trigger] cv.fields[m][i])
                        &&& cv.fields[m][i].card == sv.nodes[m].probes[i].descriptor().order_spec()
                    }
            } by {
                assert(cv.fields[m] == field_views(cs.fields@[m]@));
                assert forall|i: int| 0 <= i < cv.fields[m].len() implies fs_wf(#[trigger] cv.fields[m][i]) by {
                    cs.fields@[m]@[i].lemma_wf_facts();
                }
            }
            if let FallbackDescriptor::StaticPolynomialV2 { field, optimized_points, .. } = sv.fallback {
                let f = cs.fallback_field->Some_0;
                f.lemma_wf_facts();
                lemma_four_distinct(optimized_points@, f@.card);
            }
            assert(compiled_ok(cv));
            if scheme_simple(sv) {
                let simple = simple_view(sv);
                assert forall|m: int| 0 <= m < sv.nodes.len() implies #[trigger] cv.fields[m] == simple.fields[m] by {
                    assert(cv.fields[m] == field_views(cs.fields@[m]@));
                    assert forall|i: int| 0 <= i < cv.fields[m].len() implies #[trigger] cv.fields[m][i] == simple.fields[m][i] by {
                        assert(sv.nodes[m].probes[i].descriptor().degree == 1);
                    }
                    assert(cv.fields[m] =~= simple.fields[m]);
                }
                assert(cv.fields =~= simple.fields);
            }
        }
        Ok(cs)
    }
}

proof fn lemma_branch_checks_children(
    s: SchemeView,
    from: nat,
    o: u128,
    br: Seq<(AtomId, u32)>,
    k: nat,
    reach: Seq<bool>,
)
    requires
        branch_checks(s, from, o, br, k, reach) is Ok,
    ensures
        forall|j: int| k <= j < br.len() ==> (#[trigger] br[j]).1 < s.nodes.len(),
    decreases br.len() - k,
{
    if k < br.len() {
        let child = br[k as int].1;
        lemma_branch_checks_children(s, from, o, br, k + 1, propagate(reach, from, child as nat));
    }
}

proof fn lemma_branch_lookup_bound(b: Seq<(AtomId, u32)>, atom: AtomId, bound: nat)
    requires
        forall|j: int| 0 <= j < b.len() ==> (#[trigger] b[j]).1 < bound,
    ensures
        branch_lookup(b, atom) matches Some(c) ==> c < bound,
    decreases b.len(),
{
    if b.len() > 0 {
        lemma_branch_lookup_bound(b.drop_last(), atom, bound);
    }
}

pub open spec fn child_below(c: Option<u32>, bound: nat) -> bool {
    match c {
        Some(x) => x < bound,
        None => true,
    }
}

/// In a valid scheme every edge leads to an existing node.
proof fn lemma_children_in_range(s: SchemeView, k: nat)
    requires
        k <= s.nodes.len(),
        nodes_checks(s, k) is Ok,
    ensures
        forall|n: int, a: AtomId|
            0 <= n < k ==> child_below(#[trigger] child_for_spec(s.nodes[n], a), s.nodes.len()),
    decreases k,
{
    if k > 0 {
        let prev = nodes_checks(s, (k - 1) as nat);
        assert(prev is Ok);
        lemma_children_in_range(s, (k - 1) as nat);
        let from = (k - 1) as nat;
        let node = s.nodes[from as int];
        let r = prev->Ok_0;
        let o = capacity_fold(node.probes, s.capacity, node.probes.len())->Ok_0;
        lemma_branch_checks_children(s, from, o, node.branches, 0, r);
        assert forall|a: AtomId| child_below(#[trigger] child_for_spec(s.nodes[from as int], a), s.nodes.len()) by {
            lemma_branch_lookup_bound(node.branches, a, s.nodes.len());
        }
    }
}

/// Every decision node the stream visits exists, and the fallback depth never
/// exceeds the position.
pub proof fn lemma_walk_in_range(cv: CompiledView, bytes: Seq<u8>, i: nat)
    requires
        compiled_ok(cv),
    ensures
        walk(cv, bytes, i) matches WalkState::Tree(n) ==> n < cv.scheme.nodes.len(),
        walk(cv, bytes, i) matches WalkState::Fallback(d) ==> d <= i,
    decreases i,
{
    let s = cv.scheme;
    if i == 0 {
    } else {
        lemma_walk_in_range(cv, bytes, (i - 1) as nat);
        lemma_children_in_range(s, s.nodes.len());
    }
}

impl CompiledScheme {
    pub proof fn lemma_wf_ok(&self)
        requires
            self.wf(),
        ensures
            compiled_ok(self@),
    {
    }

    pub fn root(&self) -> (r: Option<u32>)
        ensures
            r == self@.scheme.root,
    {
        self.scheme.root
    }

    /// Atom of decision node `n` for `bytes`.
    pub fn evaluate_node(&self, n: u32, bytes: &[u8]) -> (r: AtomId)
        requires
            self.wf(),
            n < self@.scheme.nodes.len(),
            bytes_ok(bytes@.len()),
        ensures
            r == node_atom(self@, n as nat, bytes@),
    {
        let node = &self.scheme.nodes[n as usize];
        let codec = self.scheme.codec;
        let symbols = codec.symbols(bytes);
        let card = codec.symbol_cardinality();
        proof {
            lemma_codec_symbols_in_range(codec, bytes@);
            assert(fields_match(self.fields@[n as int]@, node.action.probes@, self.scheme.capacity as nat));
            assert(self@.fields[n as int] == field_views(self.fields@[n as int]@));
            assert(self@.scheme.nodes[n as int] == node@);
        }
        let atom = node.action.evaluate_compiled(&self.fields[n as usize], symbols.as_slice(), card, self.scheme.capacity);
        AtomId(atom)
    }

    /// Successor of decision node `n` on outcome `atom`.
    pub fn child(&self, n: u32, atom: AtomId) -> (r: Option<u32>)
        requires
            self.wf(),
            n < self@.scheme.nodes.len(),
        ensures
            r == child_for_spec(self@.scheme.nodes[n as int], atom),
            r matches Some(c) ==> c < self@.scheme.nodes.len(),
    {
        proof {
            assert(self@.scheme.nodes[n as int] == self.scheme.nodes@[n as int]@);
            lemma_children_in_range(self@.scheme, self@.scheme.nodes.len());
        }
        self.scheme.nodes[n as usize].child_for(atom)
    }

    /// Start the fallback continuation of `bytes`.
    pub fn start_fallback<'a>(&self, bytes: &'a [u8]) -> (r: FallbackAddress<'a>)
        requires
            self.wf(),
            bytes_ok(bytes@.len()),
        ensures
            r.wf(),
            r.depth() == 0,
            r.bytes() == bytes@,
            forall|k: nat| #[trigger] r.atom_at(k) == fallback_atom(self@, bytes@, k).0,
    {
        match self.scheme.fallback {
            FallbackDescriptor::DirectRadixV1 => {
                let started = FallbackAddress::new(bytes, self.scheme.capacity);
                proof {
                    assert(validate_spec(self@.scheme) is Ok);
                }
                started.unwrap()
            },
            FallbackDescriptor::StaticPolynomialV2 { codec, field, optimized_points } => {
                let f = self.fallback_field.as_ref().unwrap().duplicate();
                FallbackAddress::with_field(bytes, codec, field, f, optimized_points)
            },
        }
    }
}

} // verus!
