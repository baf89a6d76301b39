//! The derivation tree: one parent link per CSpace slot, and what holds of those links.

use crate::cap::cap::{CapType, RawCap};
use vstd::prelude::*;

verus! {

/// The parent link of a derivation root. No slot index is that large.
pub const NIL: usize = usize::MAX;

/// A capability-table entry: the capability and the slot it was derived from.
#[derive(Clone, Copy)]
pub struct Cte {
    pub cap: RawCap,
    pub parent: usize,
}

impl Cte {
    /// The entry of an empty slot, as a value of the model.
    pub open spec fn empty_spec() -> Cte {
        Cte { cap: RawCap::null_spec(), parent: NIL }
    }

    /// The entry of an empty slot.
    pub fn empty() -> (e: Cte)
        ensures
            e == Cte::empty_spec(),
    {
        Cte { cap: RawCap::null(), parent: NIL }
    }
}

/// Slot `i` holds a capability.
pub open spec fn live(s: Seq<Cte>, i: int) -> bool {
    0 <= i < s.len() && s[i].cap.cap_type != CapType::Null
}

/// Slot `i` holds a capability derived directly from slot `p`.
pub open spec fn child_of(s: Seq<Cte>, i: int, p: int) -> bool {
    live(s, i) && s[i].parent == p
}

/// Some capability is derived directly from slot `p`.
pub open spec fn has_child(s: Seq<Cte>, p: int) -> bool {
    exists|i: int| #[trigger] child_of(s, i, p)
}

/// The parent of slot `i` is sound: it is a root, or its parent slot holds a capability that
/// may have children, and a `Sched` is only derived from a `Sched`.
pub open spec fn link_ok(s: Seq<Cte>, i: int) -> bool {
    s[i].parent == NIL || {
        let p = s[i].parent as int;
        &&& live(s, p)
        &&& s[p].cap.cap_type != CapType::Reply
        &&& s[i].cap.cap_type == CapType::Sched ==> s[p].cap.cap_type == CapType::Sched
    }
}

/// `rank` grows along every derivation, so that no capability is its own ancestor.
pub open spec fn ranked(s: Seq<Cte>, rank: Seq<nat>) -> bool {
    &&& rank.len() == s.len()
    &&& forall|i: int|
        live(s, i) && s[i].parent != NIL ==> rank[s[i].parent as int] < #[trigger] rank[i]
}

/// The derivation links form a forest.
pub open spec fn acyclic(s: Seq<Cte>) -> bool {
    exists|rank: Seq<nat>| ranked(s, rank)
}

/// What every CSpace operation keeps: sound links without cycles, empty slots that hold
/// nothing, and `Untyped` regions that are not consumed beyond their size.
pub open spec fn mdb_wf(s: Seq<Cte>) -> bool {
    &&& s.len() <= usize::MAX
    &&& forall|i: int| live(s, i) ==> #[trigger] link_ok(s, i)
    &&& forall|i: int| 0 <= i < s.len() && !live(s, i) ==> #[trigger] s[i] == Cte::empty_spec()
    &&& forall|i: int|
        live(s, i) && s[i].cap.cap_type == CapType::Untyped ==> (#[trigger] s[i]).cap.watermark
            <= s[i].cap.size
    &&& acyclic(s)
}

/// The slot reached from `i` by following `k` parent links; `NIL` once a root is passed.
pub open spec fn ancestor(s: Seq<Cte>, i: int, k: nat) -> int
    decreases k,
{
    if k == 0 {
        i
    } else {
        let a = ancestor(s, i, (k - 1) as nat);
        if 0 <= a < s.len() {
            s[a].parent as int
        } else {
            NIL as int
        }
    }
}

/// Slot `i` was derived from slot `a`, in one step or more.
pub open spec fn descends(s: Seq<Cte>, i: int, a: int) -> bool {
    exists|k: nat| 0 < k && #[trigger] ancestor(s, i, k) == a
}

/// The slots that REVOKE of `c` destroys.
pub open spec fn derived_from(s: Seq<Cte>, i: int, c: int) -> bool {
    live(s, i) && i != c && descends(s, i, c)
}

/// Along the ancestors of a live slot every slot is live, and ranks fall.
pub proof fn lemma_ancestor_live(s: Seq<Cte>, rank: Seq<nat>, i: int, k: nat)
    requires
        mdb_wf(s),
        ranked(s, rank),
        live(s, i),
    ensures
        ancestor(s, i, k) == NIL || {
            &&& live(s, ancestor(s, i, k))
            &&& rank[ancestor(s, i, k)] + k <= rank[i]
        },
    decreases k,
{
    if k > 0 {
        lemma_ancestor_live(s, rank, i, (k - 1) as nat);
        let a = ancestor(s, i, (k - 1) as nat);
        if a != NIL {
            assert(link_ok(s, a));
            assert(s[a].parent != NIL ==> rank[s[a].parent as int] < rank[a]);
        }
    }
}

/// Past a root there is nothing more.
pub proof fn lemma_ancestor_nil(s: Seq<Cte>, i: int, k: nat, m: nat)
    requires
        s.len() <= usize::MAX,
        ancestor(s, i, k) == NIL,
        k <= m,
    ensures
        ancestor(s, i, m) == NIL,
    decreases m,
{
    if k < m {
        lemma_ancestor_nil(s, i, k, (m - 1) as nat);
    }
}

/// `k` steps from `i` after `j` steps are `j + k` steps.
pub proof fn lemma_ancestor_compose(s: Seq<Cte>, i: int, j: nat, k: nat)
    ensures
        ancestor(s, ancestor(s, i, j), k) == ancestor(s, i, j + k),
    decreases k,
{
    if k > 0 {
        lemma_ancestor_compose(s, i, j, (k - 1) as nat);
    }
}

/// A descent takes no more steps than there are slots.
pub proof fn lemma_descent_is_short(s: Seq<Cte>, i: int, k: nat)
    requires
        mdb_wf(s),
        live(s, i),
        ancestor(s, i, k) != NIL,
    ensures
        k < s.len(),
{
    let rank = choose|rank: Seq<nat>| ranked(s, rank);
    let chain = Seq::new(k + 1, |j: int| ancestor(s, i, j as nat));
    assert forall|a: int, b: int| 0 <= a < b < chain.len() implies chain[a] != chain[b] by {
        let ka = a as nat;
        let kb = b as nat;
        if ancestor(s, i, kb) == NIL {
            lemma_ancestor_nil(s, i, kb, k);
        }
        if ancestor(s, i, ka) == NIL {
            lemma_ancestor_nil(s, i, ka, k);
        }
        lemma_ancestor_live(s, rank, i, ka);
        let d = (kb - ka) as nat;
        lemma_ancestor_compose(s, i, ka, d);
        lemma_ancestor_live(s, rank, ancestor(s, i, ka), d);
    }
    assert(chain.no_duplicates());
    assert forall|a: int| 0 <= a < chain.len() implies 0 <= #[trigger] chain[a] < s.len() by {
        let ka = a as nat;
        if ancestor(s, i, ka) == NIL {
            lemma_ancestor_nil(s, i, ka, k);
        }
        lemma_ancestor_live(s, rank, i, ka);
    }
    chain.unique_seq_to_set();
    vstd::set_lib::lemma_int_range(0, s.len() as int);
    let all = vstd::set_lib::set_int_range(0, s.len() as int);
    assert(chain.to_set().subset_of(all));
    vstd::set_lib::lemma_len_subset(chain.to_set(), all);
}

/// No capability descends from itself.
pub proof fn lemma_no_self_descent(s: Seq<Cte>, i: int)
    requires
        mdb_wf(s),
        live(s, i),
    ensures
        !descends(s, i, i),
{
    let rank = choose|rank: Seq<nat>| ranked(s, rank);
    assert forall|k: nat| 0 < k implies #[trigger] ancestor(s, i, k) != i by {
        lemma_ancestor_live(s, rank, i, k);
    }
}

/// Descending from a slot means being its child, or the parent descending from it.
pub proof fn lemma_descends_step(s: Seq<Cte>, i: int, a: int)
    requires
        0 <= i < s.len(),
        s.len() <= usize::MAX,
        0 <= a < s.len(),
    ensures
        descends(s, i, a) <==> (s[i].parent == a || (s[i].parent < s.len() && descends(
            s,
            s[i].parent as int,
            a,
        ))),
{
    let p = s[i].parent as int;
    assert(ancestor(s, i, 0) == i);
    assert(ancestor(s, i, 1) == p);
    if descends(s, i, a) {
        let k = choose|k: nat| 0 < k && #[trigger] ancestor(s, i, k) == a;
        if k > 1 {
            lemma_ancestor_compose(s, i, 1, (k - 1) as nat);
            if p >= s.len() {
                lemma_ancestor_out(s, p, (k - 1) as nat);
            }
        }
    }
    if p < s.len() && descends(s, p, a) {
        let k = choose|k: nat| 0 < k && #[trigger] ancestor(s, p, k) == a;
        lemma_ancestor_compose(s, i, 1, k);
    }
}

/// From outside the table every further step stays outside.
pub proof fn lemma_ancestor_out(s: Seq<Cte>, i: int, k: nat)
    requires
        s.len() <= usize::MAX,
        !(0 <= i < s.len()),
    ensures
        !(0 <= ancestor(s, i, k) < s.len()),
    decreases k,
{
    if k > 0 {
        lemma_ancestor_out(s, i, (k - 1) as nat);
    }
}

/// Where a table keeps the parent links of its live slots, it keeps their ancestors.
pub proof fn lemma_same_ancestors(s: Seq<Cte>, t: Seq<Cte>, i: int, k: nat)
    requires
        mdb_wf(t),
        s.len() == t.len(),
        forall|j: int| live(t, j) ==> (#[trigger] s[j]).parent == t[j].parent,
        live(t, i),
    ensures
        ancestor(s, i, k) == ancestor(t, i, k),
    decreases k,
{
    if k > 0 {
        lemma_same_ancestors(s, t, i, (k - 1) as nat);
        let rank = choose|rank: Seq<nat>| ranked(t, rank);
        lemma_ancestor_live(t, rank, i, (k - 1) as nat);
    }
}

/// Where a table keeps the parent links of its live slots, it keeps who descends from whom.
pub proof fn lemma_same_descent(s: Seq<Cte>, t: Seq<Cte>, i: int, a: int)
    requires
        mdb_wf(t),
        s.len() == t.len(),
        forall|j: int| live(t, j) ==> (#[trigger] s[j]).parent == t[j].parent,
        live(t, i),
    ensures
        descends(s, i, a) == descends(t, i, a),
{
    assert forall|k: nat| #[trigger] ancestor(s, i, k) == ancestor(t, i, k) by {
        lemma_same_ancestors(s, t, i, k);
    }
    if descends(s, i, a) {
        let k = choose|k: nat| 0 < k && #[trigger] ancestor(s, i, k) == a;
        assert(ancestor(t, i, k) == a);
    }
    if descends(t, i, a) {
        let k = choose|k: nat| 0 < k && #[trigger] ancestor(t, i, k) == a;
        assert(ancestor(s, i, k) == a);
    }
}

/// A new capability in a slot that nothing is derived from keeps the tree sound.
pub proof fn lemma_place_keeps_wf(s: Seq<Cte>, d: int, e: Cte)
    requires
        mdb_wf(s),
        0 <= d < s.len(),
        !live(s, d) || !has_child(s, d),
        e.parent != d,
        e.cap.cap_type != CapType::Null,
        e.cap.cap_type == CapType::Untyped ==> e.cap.watermark <= e.cap.size,
        e.parent == NIL || {
            &&& live(s, e.parent as int)
            &&& s[e.parent as int].cap.cap_type != CapType::Reply
            &&& e.cap.cap_type == CapType::Sched ==> s[e.parent as int].cap.cap_type
                == CapType::Sched
        },
    ensures
        mdb_wf(s.update(d, e)),
{
    let t = s.update(d, e);
    let rank = choose|rank: Seq<nat>| ranked(s, rank);
    let r2 = rank.update(
        d,
        if e.parent == NIL {
            0
        } else {
            rank[e.parent as int] + 1
        },
    );
    assert forall|i: int| live(t, i) implies #[trigger] link_ok(t, i) by {
        if i != d {
            assert(link_ok(s, i));
            assert(!child_of(s, i, d));
        }
    }
    assert forall|i: int| live(t, i) && t[i].parent != NIL implies r2[t[i].parent as int]
        < #[trigger] r2[i] by {
        if i != d {
            assert(link_ok(s, i));
            assert(!child_of(s, i, d));
            assert(rank[s[i].parent as int] < rank[i]);
        }
    }
    assert(ranked(t, r2));
}

/// A changed record of the same type in the same place keeps the tree sound.
pub proof fn lemma_update_keeps_wf(s: Seq<Cte>, d: int, cap: RawCap)
    requires
        mdb_wf(s),
        live(s, d),
        cap.cap_type == s[d].cap.cap_type,
        cap.cap_type == CapType::Untyped ==> cap.watermark <= cap.size,
    ensures
        mdb_wf(s.update(d, Cte { cap, ..s[d] })),
{
    let t = s.update(d, Cte { cap, ..s[d] });
    let rank = choose|rank: Seq<nat>| ranked(s, rank);
    assert forall|i: int| live(t, i) implies #[trigger] link_ok(t, i) by {
        assert(link_ok(s, i));
    }
    assert(ranked(t, rank)) by {
        assert forall|i: int| live(t, i) && t[i].parent != NIL implies rank[t[i].parent as int]
            < #[trigger] rank[i] by {
            assert(live(s, i));
        }
    }
}

/// Emptying a slot that nothing is derived from keeps the tree sound.
pub proof fn lemma_remove_keeps_wf(s: Seq<Cte>, d: int)
    requires
        mdb_wf(s),
        live(s, d),
        !has_child(s, d),
    ensures
        mdb_wf(s.update(d, Cte::empty_spec())),
{
    let t = s.update(d, Cte::empty_spec());
    let rank = choose|rank: Seq<nat>| ranked(s, rank);
    assert forall|i: int| live(t, i) implies #[trigger] link_ok(t, i) by {
        assert(link_ok(s, i));
        assert(!child_of(s, i, d));
    }
    assert(ranked(t, rank)) by {
        assert forall|i: int| live(t, i) && t[i].parent != NIL implies rank[t[i].parent as int]
            < #[trigger] rank[i] by {
            assert(live(s, i));
        }
    }
}

/// The table `t` after what was in slot `a` and its children's links moved to slot `b`.
pub open spec fn relocated(s: Seq<Cte>, t: Seq<Cte>, a: int, b: int) -> bool {
    &&& t.len() == s.len()
    &&& forall|i: int|
        0 <= i < s.len() ==> #[trigger] t[i] == (if i == b {
            s[a]
        } else if i == a {
            Cte::empty_spec()
        } else if s[i].parent == a {
            Cte { parent: b as usize, ..s[i] }
        } else {
            s[i]
        })
}

/// Moving a capability to an empty slot keeps the tree sound.
pub proof fn lemma_move_keeps_wf(s: Seq<Cte>, t: Seq<Cte>, a: int, b: int)
    requires
        mdb_wf(s),
        live(s, a),
        0 <= b < s.len(),
        !live(s, b),
        relocated(s, t, a, b),
    ensures
        mdb_wf(t),
{
    let rank = choose|rank: Seq<nat>| ranked(s, rank);
    let r2 = rank.update(b, rank[a]);
    assert(link_ok(s, a));
    assert(s[a].parent != a) by {
        lemma_no_self_descent(s, a);
        lemma_descends_step(s, a, a);
    }
    assert forall|i: int| live(t, i) implies #[trigger] link_ok(t, i) by {
        if i != b {
            assert(live(s, i));
            assert(link_ok(s, i));
        }
    }
    assert forall|i: int| live(t, i) && t[i].parent != NIL implies r2[t[i].parent as int]
        < #[trigger] r2[i] by {
        if i != b {
            assert(live(s, i));
            assert(link_ok(s, i));
            assert(rank[s[i].parent as int] < rank[i]);
        } else {
            assert(rank[s[a].parent as int] < rank[a]);
        }
    }
    assert(ranked(t, r2));
    assert forall|i: int| 0 <= i < t.len() && !live(t, i) implies #[trigger] t[i]
        == Cte::empty_spec() by {
        if i != a && i != b {
            assert(!live(s, i));
            assert(s[i] == Cte::empty_spec());
        }
    }
    assert forall|i: int| live(t, i) && t[i].cap.cap_type == CapType::Untyped implies (
    #[trigger] t[i]).cap.watermark <= t[i].cap.size by {
        if i == b {
            assert(s[a].cap.watermark <= s[a].cap.size);
        } else {
            assert(live(s, i));
            assert(s[i].cap.watermark <= s[i].cap.size);
        }
    }
}

/// The largest rank among the first `n`.
pub open spec fn max_rank(rank: Seq<nat>, n: nat) -> nat
    decreases n,
{
    if n == 0 {
        0
    } else {
        let m = max_rank(rank, (n - 1) as nat);
        if rank[n - 1] > m {
            rank[n - 1]
        } else {
            m
        }
    }
}

proof fn lemma_max_rank(rank: Seq<nat>, n: nat, i: int)
    requires
        0 <= i < n <= rank.len(),
    ensures
        rank[i] <= max_rank(rank, n),
    decreases n,
{
    if i < n - 1 {
        lemma_max_rank(rank, (n - 1) as nat, i);
    }
}

/// Below every live descendant of `c` (itself included) there is one without children.
pub proof fn lemma_leaf_below(s: Seq<Cte>, c: int, i: int) -> (leaf: int)
    requires
        mdb_wf(s),
        live(s, c),
        derived_from(s, i, c),
    ensures
        derived_from(s, leaf, c),
        !has_child(s, leaf),
{
    let rank = choose|rank: Seq<nat>| ranked(s, rank);
    lemma_leaf_search(s, rank, c, i)
}

proof fn lemma_leaf_search(s: Seq<Cte>, rank: Seq<nat>, c: int, i: int) -> (leaf: int)
    requires
        mdb_wf(s),
        ranked(s, rank),
        live(s, c),
        derived_from(s, i, c),
    ensures
        derived_from(s, leaf, c),
        !has_child(s, leaf),
    decreases max_rank(rank, rank.len()) - rank[i],
{
    if has_child(s, i) {
        let j = choose|j: int| #[trigger] child_of(s, j, i);
        lemma_max_rank(rank, rank.len(), j);
        assert(rank[s[j].parent as int] < rank[j]);
        lemma_descends_step(s, j, c);
        if j == c {
            lemma_descends_step(s, c, c);
            lemma_no_self_descent(s, c);
        }
        lemma_leaf_search(s, rank, c, j)
    } else {
        i
    }
}

} // verus!
