//! Exact adaptive decision-tree search over a finite matrix of candidate
//! tests.
//!
//! A state is a list of scenarios still collided. Asking a test costs the
//! total weight of the state; the scenarios it separates leave, and those it
//! leaves collided fall into one branch per shared outcome. The search finds
//! the least total cost of a tree that separates every scenario.
use crate::cook::{collided, CandidateTest, ExactCookError, PairOutcome};
use crate::ctm::{biguint_add, biguint_is_zero, canonical_units_of};
use crate::neighborhood::copy_bytes;
use crate::scheme_bytes::{be_value, biguint_le, units_canonical};
use std::collections::BTreeMap;
use vstd::prelude::*;

verus! {

// ---------------------------------------------------------------------------
// The objective
// ---------------------------------------------------------------------------

/// Total weight of the scenarios of a state.
pub open spec fn st_weight(w: Seq<nat>, st: Seq<usize>) -> nat
    decreases st.len(),
{
    if st.len() == 0 {
        0
    } else {
        st_weight(w, st.drop_last()) + w[st.last() as int]
    }
}

/// Total weight of the scenarios of a state that a test leaves collided.
pub open spec fn residual_weight(w: Seq<nat>, outs: Seq<PairOutcome>, st: Seq<usize>) -> nat
    decreases st.len(),
{
    if st.len() == 0 {
        0
    } else {
        residual_weight(w, outs, st.drop_last()) + if collided(outs[st.last() as int]) {
            w[st.last() as int]
        } else {
            0
        }
    }
}

/// How many scenarios of a state a test leaves collided.
pub open spec fn residual_len(outs: Seq<PairOutcome>, st: Seq<usize>) -> nat
    decreases st.len(),
{
    if st.len() == 0 {
        0
    } else {
        residual_len(outs, st.drop_last()) + if collided(outs[st.last() as int]) {
            1nat
        } else {
            0nat
        }
    }
}

/// The outcomes shared by the collided scenarios of a state, each once, in
/// order of first use.
pub open spec fn labels_of(outs: Seq<PairOutcome>, st: Seq<usize>) -> Seq<u32>
    decreases st.len(),
{
    if st.len() == 0 {
        Seq::empty()
    } else {
        let l = labels_of(outs, st.drop_last());
        let o = outs[st.last() as int];
        if collided(o) && !l.contains(o.left) {
            l.push(o.left)
        } else {
            l
        }
    }
}

/// The scenarios of a state that a test leaves collided on outcome `v`, in
/// state order.
pub open spec fn branch(outs: Seq<PairOutcome>, st: Seq<usize>, v: u32) -> Seq<usize>
    decreases st.len(),
{
    if st.len() == 0 {
        Seq::empty()
    } else {
        let b = branch(outs, st.drop_last(), v);
        let o = outs[st.last() as int];
        if collided(o) && o.left == v {
            b.push(st.last())
        } else {
            b
        }
    }
}

/// A test that separates nothing and leaves the whole state in one branch.
pub open spec fn stays_whole(outs: Seq<PairOutcome>, st: Seq<usize>) -> bool {
    residual_len(outs, st) == st.len() && labels_of(outs, st).len() == 1
}

/// The least cost of a tree separating every scenario of `st`, if any tree
/// does.
pub open spec fn opt_cost(w: Seq<nat>, ts: Seq<Seq<PairOutcome>>, st: Seq<usize>) -> Option<nat>
    decreases st.len(), 2nat, 0nat,
{
    if st.len() == 0 {
        Some(0)
    } else {
        best_cost(w, ts, st, ts.len())
    }
}

/// The cost of asking test `outs` first in `st`.
pub open spec fn first_cost(w: Seq<nat>, ts: Seq<Seq<PairOutcome>>, st: Seq<usize>, outs: Seq<PairOutcome>) -> Option<nat>
    decreases st.len(), 1nat, 0nat,
{
    if stays_whole(outs, st) {
        None
    } else {
        let labs = labels_of(outs, st);
        match kids_cost(w, ts, st, outs, labs, labs.len()) {
            Some(x) => Some(st_weight(w, st) + x),
            None => None,
        }
    }
}

/// The least cost over the first `k` tests.
pub open spec fn best_cost(w: Seq<nat>, ts: Seq<Seq<PairOutcome>>, st: Seq<usize>, k: nat) -> Option<nat>
    decreases st.len(), 1nat, k + 1,
{
    if k == 0 {
        None
    } else {
        let prev = best_cost(w, ts, st, (k - 1) as nat);
        let c = first_cost(w, ts, st, ts[k - 1]);
        match (prev, c) {
            (Some(a), Some(b)) => Some(
                if b < a {
                    b
                } else {
                    a
                },
            ),
            (Some(a), None) => Some(a),
            (None, c) => c,
        }
    }
}

/// Total optimal cost of the branches of the first `n` outcomes in `labs`.
pub open spec fn kids_cost(
    w: Seq<nat>,
    ts: Seq<Seq<PairOutcome>>,
    st: Seq<usize>,
    outs: Seq<PairOutcome>,
    labs: Seq<u32>,
    n: nat,
) -> Option<nat>
    decreases st.len(), 0nat, n,
{
    if n == 0 {
        Some(0)
    } else {
        let ch = branch(outs, st, labs[n - 1]);
        if ch.len() < st.len() {
            match (kids_cost(w, ts, st, outs, labs, (n - 1) as nat), opt_cost(w, ts, ch)) {
                (Some(a), Some(b)) => Some(a + b),
                _ => None,
            }
        } else {
            None
        }
    }
}

/// The least residual weight any test leaves in `st`, over the first `k`
/// tests.
pub open spec fn min_residual(w: Seq<nat>, ts: Seq<Seq<PairOutcome>>, st: Seq<usize>, k: nat) -> nat
    decreases k,
{
    if k <= 1 {
        residual_weight(w, ts[0], st)
    } else {
        let a = min_residual(w, ts, st, (k - 1) as nat);
        let b = residual_weight(w, ts[k - 1], st);
        if b < a {
            b
        } else {
            a
        }
    }
}

/// Some test separates scenario `s`.
pub open spec fn resolvable(ts: Seq<Seq<PairOutcome>>, s: usize) -> bool {
    exists|k: int| 0 <= k < ts.len() && !collided(#[trigger] ts[k][s as int])
}

/// Every scenario of the state is separated by some test.
pub open spec fn all_resolvable(ts: Seq<Seq<PairOutcome>>, st: Seq<usize>) -> bool {
    forall|i: int| 0 <= i < st.len() ==> resolvable(ts, #[trigger] st[i])
}

proof fn lemma_branch_facts(outs: Seq<PairOutcome>, st: Seq<usize>, v: u32)
    ensures
        branch(outs, st, v).len() <= residual_len(outs, st),
        residual_len(outs, st) <= st.len(),
        forall|i: int|
            0 <= i < branch(outs, st, v).len() ==> {
                let x = #[trigger] branch(outs, st, v)[i];
                &&& st.contains(x)
                &&& collided(outs[x as int])
                &&& outs[x as int].left == v
            },
        forall|i: int|
            0 <= i < st.len() && collided(outs[st[i] as int]) && outs[st[i] as int].left == v ==> branch(
                outs,
                st,
                v,
            ).contains(#[trigger] st[i]),
        labels_of(outs, st).contains(v) <==> branch(outs, st, v).len() > 0,
    decreases st.len(),
{
    if st.len() > 0 {
        let d = st.drop_last();
        lemma_branch_facts(outs, d, v);
        let b = branch(outs, st, v);
        let bd = branch(outs, d, v);
        assert forall|i: int| 0 <= i < b.len() implies {
            let x = #[trigger] b[i];
            &&& st.contains(x)
            &&& collided(outs[x as int])
            &&& outs[x as int].left == v
        } by {
            if i < bd.len() {
                assert(b[i] == bd[i]);
                let x = bd[i];
                let j = choose|j: int| 0 <= j < d.len() && d[j] == x;
                assert(st[j] == x);
            } else {
                assert(b[i] == st.last());
                assert(st[st.len() - 1] == st.last());
            }
        }
        assert forall|i: int|
            0 <= i < st.len() && collided(outs[st[i] as int]) && outs[st[i] as int].left == v implies b.contains(
            #[trigger] st[i],
        ) by {
            if i < st.len() - 1 {
                assert(st[i] == d[i]);
                let j = choose|j: int| 0 <= j < bd.len() && bd[j] == d[i];
                assert(b[j] == bd[j]);
            } else {
                assert(b[b.len() - 1] == st.last());
            }
        }
        let o = outs[st.last() as int];
        let ld = labels_of(outs, d);
        if collided(o) && o.left == v {
            assert(labels_of(outs, st).contains(v)) by {
                if ld.contains(v) {
                    let j = choose|j: int| 0 <= j < ld.len() && ld[j] == v;
                    assert(labels_of(outs, st)[j] == v);
                } else {
                    assert(labels_of(outs, st)[ld.len() as int] == v);
                }
            }
        } else {
            if labels_of(outs, st).contains(v) {
                let j = choose|j: int| 0 <= j < labels_of(outs, st).len() && labels_of(outs, st)[j] == v;
                if j < ld.len() {
                    assert(ld[j] == v);
                }
            }
            if ld.contains(v) {
                let j = choose|j: int| 0 <= j < ld.len() && ld[j] == v;
                assert(labels_of(outs, st)[j] == v);
            }
        }
    }
}

proof fn lemma_labels_facts(outs: Seq<PairOutcome>, st: Seq<usize>)
    ensures
        forall|i: int, j: int|
            0 <= i < j < labels_of(outs, st).len() ==> #[trigger] labels_of(outs, st)[i] != #[trigger] labels_of(
                outs,
                st,
            )[j],
        forall|i: int|
            0 <= i < st.len() && collided(outs[#[trigger] st[i] as int]) ==> labels_of(outs, st).contains(
                outs[st[i] as int].left,
            ),
        residual_len(outs, st) == st.len() ==> forall|i: int| 0 <= i < st.len() ==> collided(outs[#[trigger] st[i] as int]),
        st.len() > 0 && residual_len(outs, st) == st.len() ==> labels_of(outs, st).len() >= 1,
    decreases st.len(),
{
    if st.len() > 0 {
        let d = st.drop_last();
        lemma_labels_facts(outs, d);
        lemma_branch_facts(outs, d, 0);
        let l = labels_of(outs, st);
        let ld = labels_of(outs, d);
        assert forall|i: int| 0 <= i < st.len() && collided(outs[#[trigger] st[i] as int]) implies l.contains(
            outs[st[i] as int].left,
        ) by {
            if i < st.len() - 1 {
                assert(st[i] == d[i]);
                let j = choose|j: int| 0 <= j < ld.len() && ld[j] == outs[d[i] as int].left;
                assert(l[j] == ld[j]);
            } else {
                let v = outs[st[i] as int].left;
                if ld.contains(v) {
                    let j = choose|j: int| 0 <= j < ld.len() && ld[j] == v;
                    assert(l[j] == v);
                } else {
                    assert(l[ld.len() as int] == v);
                }
            }
        }
        if residual_len(outs, st) == st.len() {
            assert(residual_len(outs, d) <= d.len()) by {
                lemma_branch_facts(outs, d, 0);
            }
            assert forall|i: int| 0 <= i < st.len() implies collided(outs[#[trigger] st[i] as int]) by {
                if i < st.len() - 1 {
                    assert(st[i] == d[i]);
                }
            }
            assert(l.contains(outs[st[0] as int].left));
        }
    }
}

proof fn lemma_two_branches(outs: Seq<PairOutcome>, st: Seq<usize>, u: u32, v: u32)
    requires
        u != v,
    ensures
        branch(outs, st, u).len() + branch(outs, st, v).len() <= residual_len(outs, st),
    decreases st.len(),
{
    if st.len() > 0 {
        lemma_two_branches(outs, st.drop_last(), u, v);
    }
}

/// A test that does not keep the state whole splits it into smaller states.
proof fn lemma_branch_shrinks(outs: Seq<PairOutcome>, st: Seq<usize>, v: u32)
    requires
        st.len() > 0,
        !stays_whole(outs, st),
    ensures
        branch(outs, st, v).len() < st.len(),
{
    lemma_branch_facts(outs, st, v);
    lemma_labels_facts(outs, st);
    if residual_len(outs, st) == st.len() {
        let l = labels_of(outs, st);
        assert(l.len() >= 2);
        let u = if l[0] != v {
            l[0]
        } else {
            l[1]
        };
        assert(l[0] != l[1]);
        assert(l.contains(u));
        lemma_branch_facts(outs, st, u);
        lemma_two_branches(outs, st, u, v);
    }
}

proof fn lemma_kids_some(
    w: Seq<nat>,
    ts: Seq<Seq<PairOutcome>>,
    st: Seq<usize>,
    outs: Seq<PairOutcome>,
    labs: Seq<u32>,
    n: nat,
)
    ensures
        kids_cost(w, ts, st, outs, labs, n) is Some <==> forall|j: int|
            0 <= j < n ==> (#[trigger] branch(outs, st, labs[j])).len() < st.len() && opt_cost(
                w,
                ts,
                branch(outs, st, labs[j]),
            ) is Some,
    decreases n,
{
    if n > 0 {
        lemma_kids_some(w, ts, st, outs, labs, (n - 1) as nat);
    }
}

proof fn lemma_best_some(w: Seq<nat>, ts: Seq<Seq<PairOutcome>>, st: Seq<usize>, k: nat)
    ensures
        best_cost(w, ts, st, k) is Some <==> exists|i: int| 0 <= i < k && first_cost(w, ts, st, #[trigger] ts[i]) is Some,
    decreases k,
{
    if k > 0 {
        lemma_best_some(w, ts, st, (k - 1) as nat);
        if first_cost(w, ts, st, ts[k - 1]) is Some {
            assert(first_cost(w, ts, st, ts[(k - 1) as int]) is Some);
        }
    }
}

/// A state can be separated exactly when each of its scenarios can.
proof fn lemma_opt_some(w: Seq<nat>, ts: Seq<Seq<PairOutcome>>, st: Seq<usize>)
    ensures
        opt_cost(w, ts, st) is Some <==> all_resolvable(ts, st),
    decreases st.len(),
{
    if st.len() > 0 {
        lemma_best_some(w, ts, st, ts.len());
        if all_resolvable(ts, st) {
            let s0 = st[0];
            assert(resolvable(ts, s0));
            let k0 = choose|k: int| 0 <= k < ts.len() && !collided(#[trigger] ts[k][s0 as int]);
            let outs = ts[k0];
            lemma_labels_facts(outs, st);
            assert(!stays_whole(outs, st));
            let labs = labels_of(outs, st);
            assert forall|j: int| 0 <= j < labs.len() implies (#[trigger] branch(outs, st, labs[j])).len() < st.len()
                && opt_cost(w, ts, branch(outs, st, labs[j])) is Some by {
                let b = branch(outs, st, labs[j]);
                lemma_branch_shrinks(outs, st, labs[j]);
                lemma_branch_facts(outs, st, labs[j]);
                assert forall|i: int| 0 <= i < b.len() implies resolvable(ts, #[trigger] b[i]) by {
                    let x = b[i];
                    let m = choose|m: int| 0 <= m < st.len() && st[m] == x;
                    assert(resolvable(ts, st[m]));
                }
                lemma_opt_some(w, ts, b);
            }
            lemma_kids_some(w, ts, st, outs, labs, labs.len());
            assert(first_cost(w, ts, st, ts[k0]) is Some);
        }
        if opt_cost(w, ts, st) is Some {
            let k = choose|i: int| 0 <= i < ts.len() && first_cost(w, ts, st, #[trigger] ts[i]) is Some;
            let outs = ts[k];
            let labs = labels_of(outs, st);
            lemma_kids_some(w, ts, st, outs, labs, labs.len());
            lemma_labels_facts(outs, st);
            assert forall|i: int| 0 <= i < st.len() implies resolvable(ts, #[trigger] st[i]) by {
                let x = st[i];
                if !collided(outs[x as int]) {
                    assert(!collided(ts[k][x as int]));
                } else {
                    let v = outs[x as int].left;
                    assert(labs.contains(v));
                    let j = choose|j: int| 0 <= j < labs.len() && labs[j] == v;
                    let b = branch(outs, st, labs[j]);
                    lemma_branch_facts(outs, st, v);
                    assert(b.contains(x));
                    let m = choose|m: int| 0 <= m < b.len() && b[m] == x;
                    lemma_opt_some(w, ts, b);
                    assert(resolvable(ts, b[m]));
                }
            }
        }
    }
}

// ---------------------------------------------------------------------------
// The first-step lower bound
// ---------------------------------------------------------------------------

/// Total weight of the branches of the first `n` outcomes in `labs`.
pub open spec fn kids_weight(w: Seq<nat>, outs: Seq<PairOutcome>, st: Seq<usize>, labs: Seq<u32>, n: nat) -> nat
    decreases n,
{
    if n == 0 {
        0
    } else {
        kids_weight(w, outs, st, labs, (n - 1) as nat) + st_weight(w, branch(outs, st, labs[n - 1]))
    }
}

proof fn lemma_kids_weight_prefix(
    w: Seq<nat>,
    outs: Seq<PairOutcome>,
    st: Seq<usize>,
    a: Seq<u32>,
    b: Seq<u32>,
    n: nat,
)
    requires
        n <= a.len(),
        n <= b.len(),
        forall|j: int| 0 <= j < n ==> a[j] == b[j],
    ensures
        kids_weight(w, outs, st, a, n) == kids_weight(w, outs, st, b, n),
    decreases n,
{
    if n > 0 {
        lemma_kids_weight_prefix(w, outs, st, a, b, (n - 1) as nat);
    }
}

proof fn lemma_kids_weight_push(w: Seq<nat>, outs: Seq<PairOutcome>, st: Seq<usize>, labs: Seq<u32>, n: nat)
    requires
        st.len() > 0,
        n <= labs.len(),
        forall|i: int, j: int| 0 <= i < j < n ==> labs[i] != labs[j],
    ensures
        kids_weight(w, outs, st, labs, n) == kids_weight(w, outs, st.drop_last(), labs, n) + if collided(
            outs[st.last() as int],
        ) && labs.take(n as int).contains(outs[st.last() as int].left) {
            w[st.last() as int]
        } else {
            0
        },
    decreases n,
{
    let d = st.drop_last();
    let s = st.last();
    let o = outs[s as int];
    if n > 0 {
        lemma_kids_weight_push(w, outs, st, labs, (n - 1) as nat);
        let v = labs[n - 1];
        let bd = branch(outs, d, v);
        if collided(o) && o.left == v {
            assert(branch(outs, st, v) == bd.push(s));
            assert(bd.push(s).drop_last() =~= bd);
            assert(!labs.take(n - 1).contains(v)) by {
                if labs.take(n - 1).contains(v) {
                    let i = choose|i: int| 0 <= i < n - 1 && #[trigger] labs.take(n - 1)[i] == v;
                    assert(labs[i] == labs[n - 1]);
                }
            }
            assert(labs.take(n as int)[n - 1] == v);
        } else {
            assert(branch(outs, st, v) == bd);
            if collided(o) && labs.take(n as int).contains(o.left) {
                let i = choose|i: int| 0 <= i < n && #[trigger] labs.take(n as int)[i] == o.left;
                assert(labs.take(n - 1)[i] == o.left);
            }
            if labs.take(n - 1).contains(o.left) {
                let i = choose|i: int| 0 <= i < n - 1 && #[trigger] labs.take(n - 1)[i] == o.left;
                assert(labs.take(n as int)[i] == o.left);
            }
        }
    }
}

/// The branches of a test split its residual weight exactly.
proof fn lemma_kids_weight_total(w: Seq<nat>, outs: Seq<PairOutcome>, st: Seq<usize>)
    ensures
        kids_weight(w, outs, st, labels_of(outs, st), labels_of(outs, st).len()) == residual_weight(w, outs, st),
    decreases st.len(),
{
    if st.len() > 0 {
        let d = st.drop_last();
        let s = st.last();
        let o = outs[s as int];
        let l = labels_of(outs, st);
        let ld = labels_of(outs, d);
        lemma_kids_weight_total(w, outs, d);
        lemma_labels_facts(outs, st);
        lemma_labels_facts(outs, d);
        lemma_kids_weight_push(w, outs, st, l, l.len());
        assert(l.take(l.len() as int) =~= l);
        if collided(o) && !ld.contains(o.left) {
            assert(l == ld.push(o.left));
            lemma_kids_weight_prefix(w, outs, d, l, ld, ld.len());
            lemma_branch_facts(outs, d, o.left);
            assert(branch(outs, d, o.left) =~= Seq::<usize>::empty());
            assert(l[ld.len() as int] == o.left);
            assert(l.contains(o.left));
        } else {
            assert(l == ld);
            if collided(o) {
                assert(l.contains(o.left));
            }
        }
    }
}

proof fn lemma_best_is_some_test(w: Seq<nat>, ts: Seq<Seq<PairOutcome>>, st: Seq<usize>, k: nat)
    requires
        best_cost(w, ts, st, k) is Some,
    ensures
        exists|i: int| 0 <= i < k && best_cost(w, ts, st, k) == first_cost(w, ts, st, #[trigger] ts[i]),
    decreases k,
{
    if k > 0 {
        let prev = best_cost(w, ts, st, (k - 1) as nat);
        let c = first_cost(w, ts, st, ts[k - 1]);
        if prev is Some {
            lemma_best_is_some_test(w, ts, st, (k - 1) as nat);
            let i = choose|i: int| 0 <= i < k - 1 && prev == first_cost(w, ts, st, #[trigger] ts[i]);
            if c is Some && c->0 < prev->0 {
                assert(best_cost(w, ts, st, k) == first_cost(w, ts, st, ts[(k - 1) as int]));
            } else {
                assert(best_cost(w, ts, st, k) == first_cost(w, ts, st, ts[i]));
            }
        } else {
            assert(best_cost(w, ts, st, k) == first_cost(w, ts, st, ts[(k - 1) as int]));
        }
    }
}

proof fn lemma_kids_at_least_weight(
    w: Seq<nat>,
    ts: Seq<Seq<PairOutcome>>,
    st: Seq<usize>,
    outs: Seq<PairOutcome>,
    labs: Seq<u32>,
    n: nat,
)
    requires
        kids_cost(w, ts, st, outs, labs, n) is Some,
    ensures
        kids_cost(w, ts, st, outs, labs, n)->0 >= kids_weight(w, outs, st, labs, n),
    decreases st.len(), n,
{
    if n > 0 {
        lemma_kids_at_least_weight(w, ts, st, outs, labs, (n - 1) as nat);
        let ch = branch(outs, st, labs[n - 1]);
        lemma_opt_at_least_weight(w, ts, ch);
    }
}

/// Every scenario of a state pays at least once.
proof fn lemma_opt_at_least_weight(w: Seq<nat>, ts: Seq<Seq<PairOutcome>>, st: Seq<usize>)
    requires
        opt_cost(w, ts, st) is Some,
    ensures
        opt_cost(w, ts, st)->0 >= st_weight(w, st),
    decreases st.len(), 0nat,
{
    if st.len() > 0 {
        lemma_best_is_some_test(w, ts, st, ts.len());
    }
}

proof fn lemma_min_residual_at_most(w: Seq<nat>, ts: Seq<Seq<PairOutcome>>, st: Seq<usize>, k: nat, i: int)
    requires
        0 <= i < k,
    ensures
        min_residual(w, ts, st, k) <= residual_weight(w, ts[i], st),
    decreases k,
{
    if k > 1 && i < k - 1 {
        lemma_min_residual_at_most(w, ts, st, (k - 1) as nat, i);
    }
}

/// First-step lower bound: every scenario pays one atom at the first test,
/// and every scenario the first test leaves collided pays at least one more,
/// so the optimum is at least the total weight plus the least residual
/// weight any test leaves.
pub proof fn lemma_first_step_lower_bound(w: Seq<nat>, ts: Seq<Seq<PairOutcome>>, st: Seq<usize>)
    requires
        ts.len() > 0,
        opt_cost(w, ts, st) is Some,
    ensures
        st_weight(w, st) + min_residual(w, ts, st, ts.len()) <= opt_cost(w, ts, st)->0,
{
    if st.len() == 0 {
        assert(residual_weight(w, ts[0], st) == 0);
        assert forall|k: nat| k >= 1 implies min_residual(w, ts, st, k) == 0 by {
            lemma_min_residual_zero(w, ts, st, k);
        }
    } else {
        lemma_best_is_some_test(w, ts, st, ts.len());
        let i = choose|i: int| 0 <= i < ts.len() && best_cost(w, ts, st, ts.len()) == first_cost(w, ts, st, #[trigger] ts[i]);
        let outs = ts[i];
        let labs = labels_of(outs, st);
        lemma_kids_at_least_weight(w, ts, st, outs, labs, labs.len());
        lemma_kids_weight_total(w, outs, st);
        lemma_min_residual_at_most(w, ts, st, ts.len(), i);
    }
}

proof fn lemma_min_residual_zero(w: Seq<nat>, ts: Seq<Seq<PairOutcome>>, st: Seq<usize>, k: nat)
    requires
        st.len() == 0,
    ensures
        min_residual(w, ts, st, k) == 0,
    decreases k,
{
    if k > 1 {
        lemma_min_residual_zero(w, ts, st, (k - 1) as nat);
    }
}

// ---------------------------------------------------------------------------
// The search
// ---------------------------------------------------------------------------

/// A node of a cooked decision tree: the test asked, and the subtree of each
/// outcome that leaves scenarios collided.
#[derive(Debug)]
pub struct AbstractCookNode {
    pub test_id: u32,
    pub residual_branches: BTreeMap<u32, Box<AbstractCookNode>>,
}

/// What the search found, with the bounds that certify it. Numbers are
/// big-endian units without leading zero bytes.
#[derive(Clone, Debug, PartialEq, Eq)]
pub struct ExactCertificate {
    pub total_weight: Vec<u8>,
    pub optimum_cost: Vec<u8>,
    pub root_lower_bound: Vec<u8>,
    pub explored_states: u64,
    pub memoized_states: u64,
}

#[derive(Debug)]
pub struct ExactSolution {
    pub cost: Vec<u8>,
    pub root: Option<AbstractCookNode>,
    pub certificate: ExactCertificate,
}

/// The weights of the scenarios and the candidate tests.
pub struct ExactCooker {
    weights: Vec<Vec<u8>>,
    tests: Vec<CandidateTest>,
}

/// A solved state: its optimal cost, the test asked first, and the solved
/// state of each branch, by position in the arena.
pub(crate) struct ArenaEntry {
    pub(crate) state: Vec<usize>,
    pub(crate) cost: Vec<u8>,
    pub(crate) test_id: u32,
    pub(crate) kids: Vec<(u32, usize)>,
}

/// Numbers spelled by big-endian units.
pub open spec fn unit_values(ws: Seq<Vec<u8>>) -> Seq<nat> {
    ws.map_values(|u: Vec<u8>| be_value(u@))
}

/// The outcome rows of candidate tests.
pub open spec fn test_rows(ts: Seq<CandidateTest>) -> Seq<Seq<PairOutcome>> {
    ts.map_values(|t: CandidateTest| t.outcomes@)
}

/// The scenarios of nonzero weight among the first `n`, in order.
pub open spec fn start_state(w: Seq<nat>, n: nat) -> Seq<usize>
    decreases n,
{
    if n == 0 {
        Seq::empty()
    } else {
        let s = start_state(w, (n - 1) as nat);
        if w[n - 1] > 0 {
            s.push((n - 1) as usize)
        } else {
            s
        }
    }
}

spec fn state_valid(st: Seq<usize>, n: nat) -> bool {
    forall|i: int| 0 <= i < st.len() ==> #[trigger] st[i] < n
}

pub(crate) open spec fn links_ok(a: Seq<ArenaEntry>) -> bool {
    forall|i: int, j: int| 0 <= i < a.len() && 0 <= j < a[i].kids@.len() ==> (#[trigger] a[i].kids@[j]).1 < i
}

spec fn arena_ok(a: Seq<ArenaEntry>, w: Seq<nat>, ts: Seq<Seq<PairOutcome>>) -> bool {
    &&& links_ok(a)
    &&& forall|i: int|
        0 <= i < a.len() ==> opt_cost(w, ts, (#[trigger] a[i]).state@) == Some(be_value(a[i].cost@))
}

spec fn arena_grows(a: Seq<ArenaEntry>, b: Seq<ArenaEntry>) -> bool {
    &&& a.len() <= b.len()
    &&& forall|i: int| 0 <= i < a.len() ==> #[trigger] b[i] == a[i]
}

/// A solution of the search for `st` whose optimum is `c`.
pub open spec fn solution_ok(
    sol: ExactSolution,
    w: Seq<nat>,
    ts: Seq<Seq<PairOutcome>>,
    st: Seq<usize>,
    c: nat,
) -> bool {
    &&& be_value(sol.cost@) == c
    &&& units_canonical(sol.cost@)
    &&& sol.certificate.optimum_cost@ == sol.cost@
    &&& be_value(sol.certificate.total_weight@) == st_weight(w, st)
    &&& units_canonical(sol.certificate.total_weight@)
    &&& units_canonical(sol.certificate.root_lower_bound@)
    &&& sol.certificate.explored_states == sol.certificate.memoized_states
    &&& be_value(sol.certificate.total_weight@) <= be_value(sol.certificate.root_lower_bound@)
    &&& be_value(sol.certificate.root_lower_bound@) <= be_value(sol.cost@)
    &&& st.len() == 0 ==> {
        &&& sol.root is None
        &&& sol.certificate.root_lower_bound@.len() == 0
        &&& sol.certificate.explored_states == 0
    }
    &&& st.len() > 0 ==> {
        &&& sol.root is Some
        &&& be_value(sol.certificate.root_lower_bound@) == st_weight(w, st) + min_residual(w, ts, st, ts.len())
    }
}

fn copy_state(s: &[usize]) -> (r: Vec<usize>)
    ensures
        r@ == s@,
{
    vstd::slice::slice_to_vec(s)
}

fn same_state(a: &[usize], b: &[usize]) -> (r: bool)
    ensures
        r == (a@ == b@),
{
    if a.len() != b.len() {
        return false;
    }
    let mut i: usize = 0;
    while i < a.len()
        invariant
            a@.len() == b@.len(),
            i <= a@.len(),
            forall|j: int| 0 <= j < i ==> a@[j] == b@[j],
        decreases a@.len() - i,
    {
        if a[i] != b[i] {
            return false;
        }
        i = i + 1;
    }
    assert(a@ =~= b@);
    true
}

fn find_solved(arena: &Vec<ArenaEntry>, st: &[usize]) -> (r: Option<usize>)
    ensures
        r matches Some(i) ==> i < arena@.len() && arena@[i as int].state@ == st@,
        r is None ==> forall|i: int| 0 <= i < arena@.len() ==> (#[trigger] arena@[i]).state@ != st@,
{
    let mut i: usize = 0;
    while i < arena.len()
        invariant
            i <= arena@.len(),
            forall|j: int| 0 <= j < i ==> (#[trigger] arena@[j]).state@ != st@,
        decreases arena@.len() - i,
    {
        if same_state(arena[i].state.as_slice(), st) {
            return Some(i);
        }
        i = i + 1;
    }
    None
}

fn state_weight(weights: &Vec<Vec<u8>>, st: &[usize]) -> (r: Vec<u8>)
    requires
        state_valid(st@, weights@.len()),
    ensures
        be_value(r@) == st_weight(unit_values(weights@), st@),
{
    let ghost w = unit_values(weights@);
    let mut acc: Vec<u8> = Vec::new();
    let mut i: usize = 0;
    proof {
        assert(st@.take(0) =~= Seq::<usize>::empty());
    }
    while i < st.len()
        invariant
            w == unit_values(weights@),
            state_valid(st@, weights@.len()),
            i <= st@.len(),
            be_value(acc@) == st_weight(w, st@.take(i as int)),
        decreases st@.len() - i,
    {
        let s = st[i];
        assert(s < weights@.len());
        acc = biguint_add(acc.as_slice(), weights[s].as_slice());
        proof {
            assert(st@.take(i + 1).drop_last() =~= st@.take(i as int));
            assert(st@.take(i + 1).last() == s);
        }
        i = i + 1;
    }
    proof {
        assert(st@.take(st@.len() as int) =~= st@);
    }
    acc
}

fn residual_sum(weights: &Vec<Vec<u8>>, outs: &[PairOutcome], st: &[usize]) -> (r: Vec<u8>)
    requires
        state_valid(st@, weights@.len()),
        outs@.len() == weights@.len(),
    ensures
        be_value(r@) == residual_weight(unit_values(weights@), outs@, st@),
{
    let ghost w = unit_values(weights@);
    let mut acc: Vec<u8> = Vec::new();
    let mut i: usize = 0;
    proof {
        assert(st@.take(0) =~= Seq::<usize>::empty());
    }
    while i < st.len()
        invariant
            w == unit_values(weights@),
            state_valid(st@, weights@.len()),
            outs@.len() == weights@.len(),
            i <= st@.len(),
            be_value(acc@) == residual_weight(w, outs@, st@.take(i as int)),
        decreases st@.len() - i,
    {
        let s = st[i];
        assert(s < weights@.len());
        proof {
            assert(st@.take(i + 1).drop_last() =~= st@.take(i as int));
            assert(st@.take(i + 1).last() == s);
        }
        if outs[s].left == outs[s].right {
            acc = biguint_add(acc.as_slice(), weights[s].as_slice());
        }
        i = i + 1;
    }
    proof {
        assert(st@.take(st@.len() as int) =~= st@);
    }
    acc
}

fn position_of_label(labels: &Vec<u32>, v: u32) -> (r: Option<usize>)
    ensures
        r matches Some(p) ==> p < labels@.len() && labels@[p as int] == v,
        r is None ==> !labels@.contains(v),
{
    let mut p: usize = 0;
    while p < labels.len()
        invariant
            p <= labels@.len(),
            forall|j: int| 0 <= j < p ==> labels@[j] != v,
        decreases labels@.len() - p,
    {
        if labels[p] == v {
            return Some(p);
        }
        p = p + 1;
    }
    None
}

/// The branches a test splits a state into: the shared outcomes in order of
/// first use, the scenarios on each, and how many stay collided.
fn split_state(outs: &[PairOutcome], st: &[usize]) -> (r: (Vec<u32>, Vec<Vec<usize>>, usize))
    requires
        state_valid(st@, outs@.len()),
    ensures
        r.0@ == labels_of(outs@, st@),
        r.1@.len() == r.0@.len(),
        forall|j: int| 0 <= j < r.1@.len() ==> (#[trigger] r.1@[j])@ == branch(outs@, st@, r.0@[j]),
        r.2 == residual_len(outs@, st@),
{
    let mut labels: Vec<u32> = Vec::new();
    let mut kids: Vec<Vec<usize>> = Vec::new();
    let mut residual: usize = 0;
    let mut i: usize = 0;
    proof {
        assert(st@.take(0) =~= Seq::<usize>::empty());
    }
    while i < st.len()
        invariant
            state_valid(st@, outs@.len()),
            i <= st@.len(),
            labels@ == labels_of(outs@, st@.take(i as int)),
            kids@.len() == labels@.len(),
            forall|j: int| 0 <= j < kids@.len() ==> (#[trigger] kids@[j])@ == branch(outs@, st@.take(i as int), labels@[j]),
            residual == residual_len(outs@, st@.take(i as int)),
            residual <= i,
        decreases st@.len() - i,
    {
        let s = st[i];
        assert(s < outs@.len());
        let ghost t0 = st@.take(i as int);
        let ghost t1 = st@.take(i + 1);
        proof {
            assert(t1.drop_last() =~= t0);
            assert(t1.last() == s);
        }
        let o = outs[s];
        if o.left == o.right {
            residual = residual + 1;
            match position_of_label(&labels, o.left) {
                Some(p) => {
                    let mut kv = copy_state(kids[p].as_slice());
                    kv.push(s);
                    let ghost kids0 = kids@;
                    kids.set(p, kv);
                    proof {
                        assert forall|j: int| 0 <= j < kids@.len() implies (#[trigger] kids@[j])@ == branch(
                            outs@,
                            t1,
                            labels@[j],
                        ) by {
                            if j != p {
                                assert(kids@[j] == kids0[j]);
                                lemma_labels_facts(outs@, t0);
                                if j < p {
                                    assert(labels@[j] != labels@[p as int]);
                                } else {
                                    assert(labels@[p as int] != labels@[j]);
                                }
                            } else {
                                assert(kids@[j]@ == kids0[j]@.push(s));
                                assert(labels@[j] == o.left);
                            }
                        }
                    }
                },
                None => {
                    proof {
                        lemma_branch_facts(outs@, t0, o.left);
                        assert(branch(outs@, t1, o.left) =~= seq![s]);
                    }
                    labels.push(o.left);
                    let mut kv: Vec<usize> = Vec::new();
                    kv.push(s);
                    let ghost kids0 = kids@;
                    kids.push(kv);
                    proof {
                        assert forall|j: int| 0 <= j < kids@.len() implies (#[trigger] kids@[j])@ == branch(
                            outs@,
                            t1,
                            labels@[j],
                        ) by {
                            if j < kids0.len() {
                                assert(kids@[j] == kids0[j]);
                                assert(labels@[j] != o.left);
                            } else {
                                assert(kv@ =~= seq![s]);
                            }
                        }
                    }
                },
            }
        } else {
            proof {
                assert forall|j: int| 0 <= j < kids@.len() implies (#[trigger] kids@[j])@ == branch(
                    outs@,
                    t1,
                    labels@[j],
                ) by {}
            }
        }
        i = i + 1;
    }
    proof {
        assert(st@.take(st@.len() as int) =~= st@);
    }
    (labels, kids, residual)
}

impl ExactCooker {
    pub closed spec fn weight_values(&self) -> Seq<nat> {
        unit_values(self.weights@)
    }

    pub closed spec fn rows(&self) -> Seq<Seq<PairOutcome>> {
        test_rows(self.tests@)
    }

    /// At least one test, and one outcome of each test per scenario.
    pub closed spec fn wf(&self) -> bool {
        &&& self.tests@.len() > 0
        &&& forall|k: int| 0 <= k < self.tests@.len() ==> (#[trigger] self.tests@[k]).outcomes@.len() == self.weights@.len()
    }

    pub fn new(weights: Vec<Vec<u8>>, tests: Vec<CandidateTest>) -> (r: Result<Self, ExactCookError>)
        ensures
            tests@.len() == 0 ==> r == Err::<Self, ExactCookError>(ExactCookError::EmptyTests),
            tests@.len() > 0 && (exists|k: int|
                0 <= k < tests@.len() && (#[trigger] tests@[k]).outcomes@.len() != weights@.len()) ==> r == Err::<
                Self,
                ExactCookError,
            >(ExactCookError::LengthMismatch),
            r matches Ok(c) ==> c.wf() && c.weight_values() == unit_values(weights@) && c.rows() == test_rows(tests@),
    {
        if tests.len() == 0 {
            return Err(ExactCookError::EmptyTests);
        }
        let mut k: usize = 0;
        while k < tests.len()
            invariant
                k <= tests@.len(),
                forall|j: int| 0 <= j < k ==> (#[trigger] tests@[j]).outcomes@.len() == weights@.len(),
            decreases tests@.len() - k,
        {
            if tests[k].outcomes.len() != weights.len() {
                return Err(ExactCookError::LengthMismatch);
            }
            k = k + 1;
        }
        Ok(ExactCooker { weights, tests })
    }
}

/// Outcome labels are totally ordered, so an ordered map keyed by them
/// behaves as a map.
proof fn lemma_u32_keys_ordered()
    ensures
        vstd::laws_cmp::obeys_cmp::<u32>(),
{
    broadcast use vstd::laws_cmp::group_laws_cmp;
}

/// The outcomes of the first `n` branch links.
pub open spec fn kid_labels(ks: Seq<(u32, usize)>, n: int) -> Set<u32> {
    Set::new(|l: u32| exists|j: int| 0 <= j < n && (#[trigger] ks[j]).0 == l)
}

/// Builds the tree of a solved state from the arena.
fn expand(arena: &Vec<ArenaEntry>, idx: usize) -> (r: AbstractCookNode)
    requires
        links_ok(arena@),
        idx < arena@.len(),
    ensures
        r.test_id == arena@[idx as int].test_id,
        r.residual_branches@.dom() == kid_labels(arena@[idx as int].kids@, arena@[idx as int].kids@.len() as int),
        forall|j: int|
            0 <= j < arena@[idx as int].kids@.len() ==> r.residual_branches@.contains_key(
                (#[trigger] arena@[idx as int].kids@[j]).0,
            ),
    decreases idx,
{
    proof {
        lemma_u32_keys_ordered();
    }
    let e = &arena[idx];
    let mut branches: BTreeMap<u32, Box<AbstractCookNode>> = BTreeMap::new();
    let mut j: usize = 0;
    proof {
        assert(branches@.dom() =~= kid_labels(e.kids@, 0));
    }
    while j < e.kids.len()
        invariant
            links_ok(arena@),
            idx < arena@.len(),
            *e == arena@[idx as int],
            j <= e.kids@.len(),
            branches@.dom() == kid_labels(e.kids@, j as int),
        decreases e.kids@.len() - j,
    {
        let (label, c) = e.kids[j];
        assert(arena@[idx as int].kids@[j as int].1 < idx);
        let child = expand(arena, c);
        branches.insert(label, Box::new(child));
        proof {
            assert(branches@.dom() =~= kid_labels(e.kids@, j + 1));
        }
        j = j + 1;
    }
    AbstractCookNode { test_id: e.test_id, residual_branches: branches }
}

proof fn lemma_start_valid(w: Seq<nat>, n: nat)
    requires
        n <= w.len(),
    ensures
        state_valid(start_state(w, n), w.len()),
    decreases n,
{
    if n > 0 {
        lemma_start_valid(w, (n - 1) as nat);
    }
}

/// A state that holds a scenario no test separates cannot be solved, nor can
/// any state holding all of its scenarios.
proof fn lemma_sub_unsolvable(w: Seq<nat>, ts: Seq<Seq<PairOutcome>>, sub: Seq<usize>, st: Seq<usize>)
    requires
        opt_cost(w, ts, sub) is None,
        forall|i: int| 0 <= i < sub.len() ==> st.contains(#[trigger] sub[i]),
    ensures
        opt_cost(w, ts, st) is None,
{
    lemma_opt_some(w, ts, sub);
    let i = choose|i: int| 0 <= i < sub.len() && !resolvable(ts, #[trigger] sub[i]);
    let m = choose|m: int| 0 <= m < st.len() && st[m] == sub[i];
    lemma_opt_some(w, ts, st);
    assert(!resolvable(ts, st[m]));
}

impl ExactCooker {
    #[verifier::spinoff_prover]
    fn solve_state(&self, state: &Vec<usize>, arena: &mut Vec<ArenaEntry>) -> (r: Result<usize, ExactCookError>)
        requires
            self.wf(),
            state@.len() > 0,
            state_valid(state@, self.weights@.len()),
            arena_ok(old(arena)@, self.weight_values(), self.rows()),
        ensures
            arena_ok(final(arena)@, self.weight_values(), self.rows()),
            arena_grows(old(arena)@, final(arena)@),
            r matches Ok(i) ==> i < final(arena)@.len() && final(arena)@[i as int].state@ == state@,
            r is Err ==> r == Err::<usize, ExactCookError>(ExactCookError::UnseparableState) && opt_cost(
                self.weight_values(),
                self.rows(),
                state@,
            ) is None,
        decreases state@.len(),
    {
        let ghost w = self.weight_values();
        let ghost ts = self.rows();
        let ghost st = state@;
        let ghost a0 = arena@;
        match find_solved(arena, state.as_slice()) {
            Some(i) => {
                return Ok(i);
            },
            None => {},
        }
        let node_cost = state_weight(&self.weights, state.as_slice());
        let mut best: Option<(Vec<u8>, u32, Vec<(u32, usize)>)> = None;
        let mut k: usize = 0;
        while k < self.tests.len()
            invariant
                self.wf(),
                w == self.weight_values(),
                ts == self.rows(),
                st == state@,
                st.len() > 0,
                state_valid(st, self.weights@.len()),
                arena_ok(arena@, w, ts),
                arena_grows(a0, arena@),
                a0 == old(arena)@,
                be_value(node_cost@) == st_weight(w, st),
                k <= self.tests@.len(),
                ts.len() == self.tests@.len(),
                (best is None) == (best_cost(w, ts, st, k as nat) is None),
                best matches Some(b) ==> {
                    &&& best_cost(w, ts, st, k as nat) == Some(be_value(b.0@))
                    &&& forall|m: int| 0 <= m < b.2@.len() ==> (#[trigger] b.2@[m]).1 < arena@.len()
                },
            decreases self.tests@.len() - k,
        {
            let test = &self.tests[k];
            let ghost outs = test.outcomes@;
            proof {
                assert(ts[k as int] == outs);
                assert(outs.len() == self.weights@.len());
            }
            let (labels, kids, residual) = split_state(test.outcomes.as_slice(), state.as_slice());
            let ghost a1 = arena@;
            if !(residual == state.len() && labels.len() == 1) {
                proof {
                    assert(!stays_whole(outs, st));
                }
                let mut total = copy_bytes(node_cost.as_slice());
                let mut links: Vec<(u32, usize)> = Vec::new();
                let mut j: usize = 0;
                while j < labels.len()
                    invariant
                        self.wf(),
                        w == self.weight_values(),
                        ts == self.rows(),
                        st == state@,
                        st.len() > 0,
                        state_valid(st, self.weights@.len()),
                        k < ts.len(),
                        outs == ts[k as int],
                        outs.len() == self.weights@.len(),
                        !stays_whole(outs, st),
                        labels@ == labels_of(outs, st),
                        kids@.len() == labels@.len(),
                        forall|m: int| 0 <= m < kids@.len() ==> (#[trigger] kids@[m])@ == branch(outs, st, labels@[m]),
                        arena_ok(arena@, w, ts),
                        arena_grows(a0, arena@),
                        a0 == old(arena)@,
                        arena_grows(a1, arena@),
                        j <= labels@.len(),
                        kids_cost(w, ts, st, outs, labels@, j as nat) is Some,
                        be_value(total@) == st_weight(w, st) + kids_cost(w, ts, st, outs, labels@, j as nat)->0,
                        forall|m: int| 0 <= m < links@.len() ==> (#[trigger] links@[m]).1 < arena@.len(),
                        best matches Some(b) ==> forall|m: int| 0 <= m < b.2@.len() ==> (#[trigger] b.2@[m]).1 < a1.len(),
                    decreases labels@.len() - j,
                {
                    let ghost child = branch(outs, st, labels@[j as int]);
                    proof {
                        lemma_branch_shrinks(outs, st, labels@[j as int]);
                        lemma_branch_facts(outs, st, labels@[j as int]);
                        lemma_labels_facts(outs, st);
                        assert(labels@.contains(labels@[j as int]));
                        assert(state_valid(child, self.weights@.len())) by {
                            assert forall|i: int| 0 <= i < child.len() implies #[trigger] child[i] < self.weights@.len() by {
                                let m = choose|m: int| 0 <= m < st.len() && st[m] == child[i];
                            }
                        }
                    }
                    let ghost a2 = arena@;
                    let c = self.solve_state(&kids[j], arena);
                    match c {
                        Err(e) => {
                            proof {
                                assert forall|i: int| 0 <= i < child.len() implies st.contains(#[trigger] child[i]) by {}
                                lemma_sub_unsolvable(w, ts, child, st);
                                assert(arena_grows(a2, arena@));
                                assert(arena_grows(a0, a2));
                                assert forall|i: int| 0 <= i < a0.len() implies #[trigger] arena@[i] == a0[i] by {
                                    assert(a2[i] == a0[i]);
                                }
                                assert(arena_grows(a0, arena@));
                            }
                            return Err(e);
                        },
                        Ok(ci) => {
                            proof {
                                assert(arena@[ci as int].state@ == child);
                            }
                            total = biguint_add(total.as_slice(), arena[ci].cost.as_slice());
                            let label = labels[j];
                            let mut p: usize = 0;
                            while p < links.len() && links[p].0 < label
                                invariant
                                    p <= links@.len(),
                                decreases links@.len() - p,
                            {
                                p = p + 1;
                            }
                            links.insert(p, (label, ci));
                            proof {
                                assert(kids_cost(w, ts, st, outs, labels@, (j + 1) as nat) == Some(
                                    kids_cost(w, ts, st, outs, labels@, j as nat)->0 + be_value(arena@[ci as int].cost@),
                                ));
                            }
                        },
                    }
                    j = j + 1;
                }
                proof {
                    assert(first_cost(w, ts, st, outs) == Some(be_value(total@)));
                }
                let better = match &best {
                    None => true,
                    Some(b) => !biguint_le(b.0.as_slice(), total.as_slice()),
                };
                if better {
                    best = Some((total, test.id, links));
                }
            } else {
                proof {
                    assert(stays_whole(outs, st));
                }
            }
            k = k + 1;
        }
        match best {
            None => {
                proof {
                    assert(opt_cost(w, ts, st) == best_cost(w, ts, st, ts.len()));
                }
                Err(ExactCookError::UnseparableState)
            },
            Some(b) => {
                let (cost, id, links) = b;
                let ghost a3 = arena@;
                assert(forall|m: int| 0 <= m < links@.len() ==> (#[trigger] links@[m]).1 < a3.len());
                arena.push(ArenaEntry { state: copy_state(state.as_slice()), cost, test_id: id, kids: links });
                proof {
                    assert(opt_cost(w, ts, st) == best_cost(w, ts, st, ts.len()));
                    assert forall|i: int| 0 <= i < arena@.len() implies opt_cost(w, ts, (#[trigger] arena@[i]).state@) == Some(
                        be_value(arena@[i].cost@),
                    ) by {
                        if i < a3.len() {
                            assert(arena@[i] == a3[i]);
                        }
                    }
                    assert forall|i: int, j: int| 0 <= i < arena@.len() && 0 <= j < arena@[i].kids@.len() implies (
                    #[trigger] arena@[i].kids@[j]).1 < i by {
                        if i < a3.len() {
                            assert(arena@[i] == a3[i]);
                        } else {
                            assert(arena@[i].kids@ == links@);
                            assert(links@[j].1 < a3.len());
                        }
                    }
                    assert forall|i: int| 0 <= i < a0.len() implies #[trigger] arena@[i] == a0[i] by {
                        assert(a3[i] == a0[i]);
                    }
                }
                Ok(arena.len() - 1)
            },
        }
    }
}

impl ExactCooker {
    fn min_residual_weight(&self, state: &Vec<usize>) -> (r: Vec<u8>)
        requires
            self.wf(),
            state_valid(state@, self.weights@.len()),
        ensures
            be_value(r@) == min_residual(self.weight_values(), self.rows(), state@, self.rows().len()),
    {
        let ghost w = self.weight_values();
        let ghost ts = self.rows();
        let mut best = residual_sum(&self.weights, self.tests[0].outcomes.as_slice(), state.as_slice());
        let mut k: usize = 1;
        while k < self.tests.len()
            invariant
                self.wf(),
                w == self.weight_values(),
                ts == self.rows(),
                ts.len() == self.tests@.len(),
                state_valid(state@, self.weights@.len()),
                1 <= k <= self.tests@.len(),
                be_value(best@) == min_residual(w, ts, state@, k as nat),
            decreases self.tests@.len() - k,
        {
            proof {
                assert(ts[k as int] == self.tests@[k as int].outcomes@);
            }
            let r = residual_sum(&self.weights, self.tests[k].outcomes.as_slice(), state.as_slice());
            if !biguint_le(best.as_slice(), r.as_slice()) {
                best = r;
            }
            k = k + 1;
        }
        best
    }

    /// The least-cost tree that separates every scenario of nonzero weight,
    /// with its certificate.
    pub fn solve(&self) -> (r: Result<ExactSolution, ExactCookError>)
        requires
            self.wf(),
        ensures
            ({
                let w = self.weight_values();
                let ts = self.rows();
                let st = start_state(w, w.len());
                match opt_cost(w, ts, st) {
                    None => r == Err::<ExactSolution, ExactCookError>(ExactCookError::UnseparableState),
                    Some(c) => (r matches Ok(sol) && solution_ok(sol, w, ts, st, c)),
                }
            }),
    {
        match self.solve_flat() {
            Ok((sol, _, _)) => Ok(sol),
            Err(e) => Err(e),
        }
    }

    /// The solution together with the solved states it was built from; the
    /// tree's root is the solved state at the returned position.
    pub(crate) fn solve_flat(&self) -> (r: Result<(ExactSolution, Vec<ArenaEntry>, usize), ExactCookError>)
        requires
            self.wf(),
        ensures
            ({
                let w = self.weight_values();
                let ts = self.rows();
                let st = start_state(w, w.len());
                match opt_cost(w, ts, st) {
                    None => r == Err::<(ExactSolution, Vec<ArenaEntry>, usize), ExactCookError>(
                        ExactCookError::UnseparableState,
                    ),
                    Some(c) => (r matches Ok((sol, a, i)) && solution_ok(sol, w, ts, st, c) && links_ok(a@) && (
                    st.len() > 0 ==> i < a@.len())),
                }
            }),
    {
        let ghost w = self.weight_values();
        let ghost ts = self.rows();
        let mut initial: Vec<usize> = Vec::new();
        let mut i: usize = 0;
        while i < self.weights.len()
            invariant
                w == self.weight_values(),
                w.len() == self.weights@.len(),
                i <= self.weights@.len(),
                initial@ == start_state(w, i as nat),
            decreases self.weights@.len() - i,
        {
            if !biguint_is_zero(self.weights[i].as_slice()) {
                initial.push(i);
            }
            i = i + 1;
        }
        proof {
            lemma_start_valid(w, w.len());
        }
        if initial.len() == 0 {
            return Ok((
                ExactSolution {
                    cost: Vec::new(),
                    root: None,
                    certificate: ExactCertificate {
                        total_weight: Vec::new(),
                        optimum_cost: Vec::new(),
                        root_lower_bound: Vec::new(),
                        explored_states: 0,
                        memoized_states: 0,
                    },
                },
                Vec::new(),
                0,
            ));
        }
        let total = canonical_units_of(state_weight(&self.weights, initial.as_slice()).as_slice());
        let min_res = self.min_residual_weight(&initial);
        let lower = canonical_units_of(biguint_add(total.as_slice(), min_res.as_slice()).as_slice());
        let mut arena: Vec<ArenaEntry> = Vec::new();
        let root_idx = match self.solve_state(&initial, &mut arena) {
            Ok(i) => i,
            Err(e) => {
                return Err(e);
            },
        };
        let cost = canonical_units_of(arena[root_idx].cost.as_slice());
        proof {
            assert(ts.len() == self.tests@.len());
            lemma_first_step_lower_bound(w, ts, initial@);
        }
        let root = expand(&arena, root_idx);
        let n = arena.len() as u64;
        Ok((
            ExactSolution {
                cost: copy_bytes(cost.as_slice()),
                root: Some(root),
                certificate: ExactCertificate {
                    total_weight: total,
                    optimum_cost: cost,
                    root_lower_bound: lower,
                    explored_states: n,
                    memoized_states: n,
                },
            },
            arena,
            root_idx,
        ))
    }
}

// ---------------------------------------------------------------------------
// Bounds and the objective on known depths
// ---------------------------------------------------------------------------

/// The first-step lower bound `W + R` of a state with total weight `W` whose
/// least residual collision weight over the legal next tests is `R`.
pub fn first_step_lower_bound(total_weight: &[u8], min_residual: &[u8]) -> (r: Vec<u8>)
    ensures
        be_value(r@) == be_value(total_weight@) + be_value(min_residual@),
        units_canonical(r@),
{
    canonical_units_of(biguint_add(total_weight, min_residual).as_slice())
}

/// `BigUint::from_bytes_be(a) * BigUint::from(d)`, written back with
/// `to_bytes_be`: big-endian bytes of the product.
#[verifier::external_body]
fn biguint_mul_small(a: &[u8], d: u32) -> (r: Vec<u8>)
    ensures
        be_value(r@) == be_value(a@) * d,
{
    (num_bigint::BigUint::from_bytes_be(a) * num_bigint::BigUint::from(d)).to_bytes_be()
}

/// `sum(w[i] * d[i])` over the first `n` scenarios.
pub open spec fn weighted_depths(w: Seq<nat>, d: Seq<u32>, n: nat) -> nat
    decreases n,
{
    if n == 0 {
        0
    } else {
        weighted_depths(w, d, (n - 1) as nat) + w[n - 1] * (d[n - 1] as nat)
    }
}

/// The weighted expected-depth numerator `sum(w[i] * depth[i])` for known
/// distinguishing depths; `None` when the two lists differ in length.
pub fn weighted_depth_cost(weights: &[Vec<u8>], depths: &[u32]) -> (r: Option<Vec<u8>>)
    ensures
        weights@.len() != depths@.len() <==> r is None,
        r matches Some(v) ==> be_value(v@) == weighted_depths(unit_values(weights@), depths@, depths@.len())
            && units_canonical(v@),
{
    if weights.len() != depths.len() {
        return None;
    }
    let ghost w = unit_values(weights@);
    let mut out: Vec<u8> = Vec::new();
    let mut i: usize = 0;
    while i < depths.len()
        invariant
            w == unit_values(weights@),
            weights@.len() == depths@.len(),
            i <= depths@.len(),
            be_value(out@) == weighted_depths(w, depths@, i as nat),
        decreases depths@.len() - i,
    {
        let term = biguint_mul_small(weights[i].as_slice(), depths[i]);
        out = biguint_add(out.as_slice(), term.as_slice());
        i = i + 1;
    }
    Some(canonical_units_of(out.as_slice()))
}

} // verus!
