//! Promotion of the deepest branch: the order in which the progenitors
//! of one halo are chained, and the links that realise an order.

use vstd::prelude::*;
use crate::forest::{Forest, HaloProps};
use crate::siblings::{
    all_contained, is_sibling_chain, lemma_chain_is_siblings, siblings, MAX_SIBLINGS,
};

verus! {

/// The position of the leader among the first `upto` branches: the first
/// branch whose depth no other of them exceeds. The leader changes only
/// for a strictly deeper branch, so of equally deep branches the earliest
/// leads.
pub open spec fn leader_index(depths: Seq<nat>, upto: nat) -> nat
    decreases upto,
{
    if upto <= 1 {
        0
    } else {
        let before = leader_index(depths, (upto - 1) as nat);
        if depths[upto - 1] > depths[before as int] {
            (upto - 1) as nat
        } else {
            before
        }
    }
}

/// The branch at `i` takes the lead when the walk comes to it.
pub open spec fn takes_lead(depths: Seq<nat>, i: int) -> bool {
    i >= 1 && depths[i] > depths[leader_index(depths, i as nat) as int]
}

/// The order of the branches once the first `upto` have been looked at:
/// the leader stands first, each branch that took the lead has left its
/// place to the leader it displaced, and every other branch stays.
pub open spec fn promoted_prefix<A>(sibs: Seq<A>, depths: Seq<nat>, upto: nat) -> Seq<A> {
    Seq::new(
        sibs.len(),
        |i: int|
            if i == 0 {
                sibs[leader_index(depths, upto) as int]
            } else if i < upto && takes_lead(depths, i) {
                sibs[leader_index(depths, i as nat) as int]
            } else {
                sibs[i]
            },
    )
}

/// The order of the branches after promotion.
pub open spec fn promoted<A>(sibs: Seq<A>, depths: Seq<nat>) -> Seq<A> {
    promoted_prefix(sibs, depths, sibs.len())
}

/// The depths as natural numbers.
pub open spec fn as_nats(depths: Seq<u32>) -> Seq<nat> {
    Seq::new(depths.len(), |i: int| depths[i] as nat)
}

/// `s` with the members at `i` and `j` exchanged.
pub open spec fn exchanged<A>(s: Seq<A>, i: int, j: int) -> Seq<A> {
    s.update(i, s[j]).update(j, s[i])
}

/// The leader is one of the branches looked at.
pub(crate) proof fn lemma_leader_in_range(depths: Seq<nat>, upto: nat)
    ensures
        upto >= 1 ==> leader_index(depths, upto) < upto,
        upto == 0 ==> leader_index(depths, upto) == 0,
    decreases upto,
{
    if upto > 1 {
        lemma_leader_in_range(depths, (upto - 1) as nat);
    }
}

/// No branch looked at is deeper than the leader, and every branch before
/// the leader is strictly shallower.
pub proof fn lemma_leader_is_deepest(depths: Seq<nat>, upto: nat, i: int)
    requires
        0 <= i < upto,
    ensures
        depths[i] <= depths[leader_index(depths, upto) as int],
        i < leader_index(depths, upto) ==> depths[i] < depths[leader_index(depths, upto) as int],
    decreases upto,
{
    if upto > 1 {
        lemma_leader_in_range(depths, (upto - 1) as nat);
        if i < upto - 1 {
            lemma_leader_is_deepest(depths, (upto - 1) as nat, i);
        }
    }
}

/// Looking at one more branch either leaves the order alone or exchanges
/// that branch with the leader.
pub(crate) proof fn lemma_promoted_step<A>(sibs: Seq<A>, depths: Seq<nat>, k: nat)
    requires
        1 <= k < sibs.len(),
    ensures
        promoted_prefix(sibs, depths, k + 1) == if takes_lead(depths, k as int) {
            exchanged(promoted_prefix(sibs, depths, k), 0, k as int)
        } else {
            promoted_prefix(sibs, depths, k)
        },
{
    let before = promoted_prefix(sibs, depths, k);
    let after = promoted_prefix(sibs, depths, k + 1);
    lemma_leader_in_range(depths, k);
    if takes_lead(depths, k as int) {
        assert(after =~= exchanged(before, 0, k as int));
    } else {
        assert(after =~= before);
    }
}

/// Exchanging two members keeps the members and their multiplicities.
pub(crate) proof fn lemma_exchanged_permutes<A>(s: Seq<A>, i: int, j: int)
    requires
        0 <= i < s.len(),
        0 <= j < s.len(),
    ensures
        exchanged(s, i, j).to_multiset() == s.to_multiset(),
        exchanged(s, i, j).len() == s.len(),
        s.no_duplicates() ==> exchanged(s, i, j).no_duplicates(),
{
    let t = s.update(i, s[j]);
    assert(exchanged(s, i, j).to_multiset() =~= s.to_multiset()) by {
        broadcast use vstd::multiset::group_multiset_axioms;

        vstd::seq_lib::to_multiset_update(s, i, s[j]);
        vstd::seq_lib::to_multiset_update(t, j, s[i]);
        assert(t[j] == s[j]);
        assert(s.to_multiset().count(s[i]) > 0 && s.to_multiset().count(s[j]) > 0) by {
            vstd::seq_lib::to_multiset_contains(s, s[i]);
            vstd::seq_lib::to_multiset_contains(s, s[j]);
            assert(s.contains(s[i]) && s.contains(s[j]));
        }
    }
    if s.no_duplicates() {
        let e = exchanged(s, i, j);
        assert forall|a: int, b: int| 0 <= a < e.len() && 0 <= b < e.len() && a != b implies e[a]
            != e[b] by {
            let sa = if a == i {
                j
            } else if a == j {
                i
            } else {
                a
            };
            let sb = if b == i {
                j
            } else if b == j {
                i
            } else {
                b
            };
            assert(e[a] == s[sa]);
            assert(e[b] == s[sb]);
        }
    }
}

/// Promotion permutes: the promoted order has the members of the list,
/// each as often as the list has it.
pub proof fn lemma_promoted_permutes<A>(sibs: Seq<A>, depths: Seq<nat>, upto: nat)
    requires
        upto <= sibs.len(),
    ensures
        promoted_prefix(sibs, depths, upto).to_multiset() == sibs.to_multiset(),
        promoted_prefix(sibs, depths, upto).len() == sibs.len(),
        sibs.no_duplicates() ==> promoted_prefix(sibs, depths, upto).no_duplicates(),
    decreases upto,
{
    if upto <= 1 {
        assert(promoted_prefix(sibs, depths, upto) =~= sibs);
    } else {
        let k = (upto - 1) as nat;
        lemma_promoted_permutes(sibs, depths, k);
        lemma_promoted_step(sibs, depths, k);
        lemma_exchanged_permutes(promoted_prefix(sibs, depths, k), 0, k as int);
    }
}

/// Every member of the promoted order is a member of the list.
pub(crate) proof fn lemma_promoted_members<A>(sibs: Seq<A>, depths: Seq<nat>, upto: nat, i: int)
    requires
        upto <= sibs.len(),
        0 <= i < sibs.len(),
    ensures
        sibs.contains(promoted_prefix(sibs, depths, upto)[i]),
{
    lemma_leader_in_range(depths, upto);
    lemma_leader_in_range(depths, i as nat);
    if i == 0 {
        assert(sibs[leader_index(depths, upto) as int] == promoted_prefix(sibs, depths, upto)[i]);
    } else if i < upto && takes_lead(depths, i) {
        assert(sibs[leader_index(depths, i as nat) as int] == promoted_prefix(
            sibs,
            depths,
            upto,
        )[i]);
    } else {
        assert(sibs[i] == promoted_prefix(sibs, depths, upto)[i]);
    }
}

/// The depth that the leader of the branches reaches: the greatest of
/// `depths`.
pub fn leader_depth(depths: &Vec<u32>) -> (lead: u32)
    requires
        depths.len() >= 1,
    ensures
        lead as nat == as_nats(depths@)[leader_index(as_nats(depths@), depths.len() as nat) as int],
{
    let ghost d = as_nats(depths@);
    let n: usize = depths.len();
    let mut lead: u32 = depths[0];
    let mut k: usize = 1;
    while k < n
        invariant
            1 <= k <= n,
            n == depths.len(),
            d == as_nats(depths@),
            lead as nat == d[leader_index(d, k as nat) as int],
        decreases n - k,
    {
        proof {
            lemma_leader_in_range(d, k as nat);
        }
        if depths[k] > lead {
            lead = depths[k];
        }
        k += 1;
    }
    lead
}

/// The promoted order of the branches of one halo. `depths` holds, for
/// each member of `sibs`, the depth that its branch reaches.
pub fn promote(sibs: Vec<u64>, depths: &Vec<u32>) -> (order: Vec<u64>)
    requires
        sibs.len() == depths.len(),
    ensures
        order@ == promoted(sibs@, as_nats(depths@)),
{
    let ghost s0 = sibs@;
    let ghost d = as_nats(depths@);
    let mut order = sibs;
    let n: usize = order.len();
    if n == 0 {
        assert(order@ =~= promoted(s0, d));
        return order;
    }
    let mut lead: u32 = depths[0];
    let mut k: usize = 1;
    assert(order@ =~= promoted_prefix(s0, d, 1));
    while k < n
        invariant
            1 <= k <= n,
            n == s0.len(),
            n == depths.len(),
            d == as_nats(depths@),
            order@ == promoted_prefix(s0, d, k as nat),
            lead as nat == d[leader_index(d, k as nat) as int],
        decreases n - k,
    {
        proof {
            lemma_promoted_step(s0, d, k as nat);
            lemma_leader_in_range(d, k as nat);
        }
        if depths[k] > lead {
            let head: u64 = order[0];
            let here: u64 = order[k];
            order.set(0, here);
            order.set(k, head);
            lead = depths[k];
        }
        k += 1;
    }
    order
}

/// The forest in which the members of `order` from position `from` on
/// are chained: each links to the one after it and the last to the first.
pub open spec fn chained_from(f: Forest, order: Seq<u64>, from: nat) -> Forest
    decreases order.len() - from,
{
    if from >= order.len() {
        f
    } else {
        chained_from(
            f.with_next_progenitor(order[from as int], successor(order, from as int)),
            order,
            from + 1,
        )
    }
}

/// The forest in which `order` is the progenitor list of `n`: its first
/// member is the first progenitor of `n` and its members are chained
/// into a cycle.
pub open spec fn relinked(f: Forest, n: u64, order: Seq<u64>) -> Forest {
    chained_from(f.with_progenitor(n, order[0]), order, 0)
}

/// The member that follows position `i` in the cycle of `order`.
pub open spec fn successor(order: Seq<u64>, i: int) -> u64 {
    if i + 1 < order.len() {
        order[i + 1]
    } else {
        order[0]
    }
}

/// What chaining changes: the next-progenitor links of the members
/// chained, and nothing else.
pub(crate) proof fn lemma_chained_from(f: Forest, order: Seq<u64>, from: nat)
    requires
        f.wf(),
        all_contained(f, order),
        order.no_duplicates(),
        from <= order.len(),
    ensures
        chained_from(f, order, from).wf(),
        chained_from(f, order, from).same_halos(f),
        chained_from(f, order, from).progenitors == f.progenitors,
        forall|i: int|
            from <= i < order.len() ==> chained_from(f, order, from).next_progenitor(
                #[trigger] order[i],
            ) == successor(order, i),
        forall|x: u64|
            f.contains(x) && !order.subrange(from as int, order.len() as int).contains(x)
                ==> chained_from(f, order, from).next_progenitor(x) == f.next_progenitor(x),
    decreases order.len() - from,
{
    if from < order.len() {
        let here = order[from as int];
        let to = successor(order, from as int);
        let g = f.with_next_progenitor(here, to);
        f.lemma_with_next_progenitor(here, to);
        assert(all_contained(g, order));
        lemma_chained_from(g, order, from + 1);
        let h = chained_from(g, order, from + 1);
        assert(h == chained_from(f, order, from));
        let tail = order.subrange(from as int + 1, order.len() as int);
        assert(!tail.contains(here)) by {
            if tail.contains(here) {
                let j = choose|j: int| 0 <= j < tail.len() && tail[j] == here;
                assert(order[from as int + 1 + j] == here);
            }
        }
        assert forall|x: u64|
            f.contains(x) && !order.subrange(from as int, order.len() as int).contains(
                x,
            ) implies h.next_progenitor(x) == f.next_progenitor(x) by {
            let whole = order.subrange(from as int, order.len() as int);
            assert(whole[0] == here);
            assert(x != here);
            if tail.contains(x) {
                let j = choose|j: int| 0 <= j < tail.len() && tail[j] == x;
                assert(whole[j + 1] == x);
            }
        }
        assert forall|i: int| from <= i < order.len() implies h.next_progenitor(
            #[trigger] order[i],
        ) == successor(order, i) by {
            if i == from {
            }
        }
    }
}

/// What relinking does: `order` becomes the progenitor list of `n`, the
/// halos and their types stay, and no link of another halo changes.
pub proof fn lemma_relinked(f: Forest, n: u64, order: Seq<u64>)
    requires
        f.wf(),
        f.contains(n),
        order.len() >= 1,
        all_contained(f, order),
        order.no_duplicates(),
    ensures
        relinked(f, n, order).wf(),
        relinked(f, n, order).same_halos(f),
        relinked(f, n, order).progenitor(n) == order[0],
        forall|x: u64|
            f.contains(x) && x != n ==> relinked(f, n, order).progenitor(x) == f.progenitor(x),
        forall|i: int|
            0 <= i < order.len() ==> relinked(f, n, order).next_progenitor(#[trigger] order[i])
                == successor(order, i),
        forall|x: u64|
            f.contains(x) && !order.contains(x) ==> relinked(f, n, order).next_progenitor(x)
                == f.next_progenitor(x),
{
    let g = f.with_progenitor(n, order[0]);
    f.lemma_with_progenitor(n, order[0]);
    assert(all_contained(g, order));
    lemma_chained_from(g, order, 0);
    assert(order.subrange(0, order.len() as int) =~= order);
}

/// After relinking, the progenitor list of `n` is `order`: the list
/// closes on its first member after as many steps as it has members.
pub proof fn lemma_relinked_closes(f: Forest, n: u64, order: Seq<u64>)
    requires
        f.wf(),
        f.contains(n),
        1 <= order.len() <= MAX_SIBLINGS + 1,
        all_contained(f, order),
        order.no_duplicates(),
        !order.contains(n),
    ensures
        is_sibling_chain(relinked(f, n, order), n, order),
        siblings(relinked(f, n, order), n) == Some(order),
{
    let g = relinked(f, n, order);
    lemma_relinked(f, n, order);
    assert forall|i: int| 0 <= i < order.len() - 1 implies g.next_progenitor(#[trigger] order[i])
        == order[i + 1] by {
        assert(successor(order, i) == order[i + 1]);
    }
    assert(g.next_progenitor(order.last()) == successor(order, order.len() - 1));
    lemma_chain_is_siblings(g, n, order);
}

/// Makes `order` the progenitor list of `id`.
pub fn relink(id: u64, order: &Vec<u64>, halo_props: &mut HaloProps)
    requires
        old(halo_props)@.wf(),
        old(halo_props)@.contains(id),
        order.len() >= 1,
        all_contained(old(halo_props)@, order@),
    ensures
        final(halo_props)@ == relinked(old(halo_props)@, id, order@),
        final(halo_props)@.wf(),
        final(halo_props)@.same_halos(old(halo_props)@),
{
    let ghost f0 = halo_props@;
    proof {
        f0.lemma_with_progenitor(id, order@[0]);
    }
    halo_props.set_progenitor(id, order[0]);
    let ghost f1 = halo_props@;
    let n: usize = order.len();
    let mut k: usize = 0;
    while k < n
        invariant
            k <= n,
            n == order.len(),
            n >= 1,
            halo_props@.wf(),
            halo_props@.same_halos(f0),
            all_contained(halo_props@, order@),
            chained_from(halo_props@, order@, k as nat) == chained_from(f1, order@, 0),
        decreases n - k,
    {
        let to: u64 = if k + 1 < n {
            order[k + 1]
        } else {
            order[0]
        };
        proof {
            halo_props@.lemma_with_next_progenitor(order@[k as int], to);
        }
        halo_props.set_next_progenitor(order[k], to);
        k += 1;
    }
}

} // verus!
