//! Trees as values: what a forest holds below one halo, and what
//! reordering makes of it.

use vstd::prelude::*;
use crate::ident::snap_of;
use crate::rotate::{
    leader_index, lemma_leader_in_range, lemma_leader_is_deepest, lemma_promoted_permutes,
    promoted, promoted_prefix, takes_lead,
};

verus! {

/// The tree below a halo: the halo, the trees below its progenitors in
/// list order, and the halo that the last progenitor links to. A halo
/// without progenitor has no branches and leads back to itself.
pub struct Tree {
    pub id: u64,
    pub branches: Seq<Tree>,
    pub back: u64,
}

/// The halos at the roots of `ts`.
pub open spec fn ids(ts: Seq<Tree>) -> Seq<u64> {
    Seq::new(ts.len(), |i: int| ts[i].id)
}

/// The depth that a tree reaches when its root stands at `depth`: the
/// depth of the deepest halo in it.
pub open spec fn reach(t: Tree, depth: nat) -> nat
    decreases t,
{
    if t.branches.len() == 0 {
        depth
    } else {
        let found = reaches(t.branches, depth + 1);
        found[leader_index(found, found.len()) as int]
    }
}

/// The depths that the trees `ts` reach when their roots stand at
/// `depth`.
pub open spec fn reaches(ts: Seq<Tree>, depth: nat) -> Seq<nat>
    decreases ts,
{
    Seq::new(
        ts.len(),
        |i: int|
            if 0 <= i < ts.len() {
                reach(ts[i], depth)
            } else {
                0
            },
    )
}

/// The tree with the deepest branch first at every branch point: the
/// branches are ordered one by one and then promoted by the depths they
/// reach, and the list leads back to the branch that is first then.
pub open spec fn ordered(t: Tree, depth: nat) -> Tree
    decreases t,
{
    if t.branches.len() == 0 {
        t
    } else {
        let order = promoted(
            ordered_each(t.branches, depth + 1),
            reaches(t.branches, depth + 1),
        );
        Tree { id: t.id, branches: order, back: order[0].id }
    }
}

/// The trees `ts` ordered one by one.
pub open spec fn ordered_each(ts: Seq<Tree>, depth: nat) -> Seq<Tree>
    decreases ts,
{
    Seq::new(
        ts.len(),
        |i: int|
            if 0 <= i < ts.len() {
                ordered(ts[i], depth)
            } else {
                Tree { id: 0, branches: Seq::empty(), back: 0 }
            },
    )
}

/// The place in the list of the member that promotion puts at `i`.
pub open spec fn source(depths: Seq<nat>, i: int) -> int {
    if i == 0 {
        leader_index(depths, depths.len()) as int
    } else if takes_lead(depths, i) {
        leader_index(depths, i as nat) as int
    } else {
        i
    }
}

/// Promotion moves members only: the member at `i` afterwards is the
/// member at `source(depths, i)` before.
pub(crate) proof fn lemma_promoted_source<A>(items: Seq<A>, depths: Seq<nat>, i: int)
    requires
        items.len() == depths.len(),
        0 <= i < items.len(),
    ensures
        0 <= source(depths, i) < items.len(),
        promoted(items, depths)[i] == items[source(depths, i)],
{
    lemma_leader_in_range(depths, depths.len());
    lemma_leader_in_range(depths, i as nat);
}

/// What `ordered` is at a branch point.
pub(crate) proof fn lemma_ordered_unfold(t: Tree, depth: nat)
    requires
        t.branches.len() > 0,
    ensures
        ordered(t, depth).id == t.id,
        ordered(t, depth).branches == promoted(
            ordered_each(t.branches, depth + 1),
            reaches(t.branches, depth + 1),
        ),
        ordered(t, depth).branches.len() == t.branches.len(),
        ordered(t, depth).back == ordered(t, depth).branches[0].id,
{
}

/// Ordering keeps the root.
pub(crate) proof fn lemma_ordered_id(t: Tree, depth: nat)
    ensures
        ordered(t, depth).id == t.id,
        ordered(t, depth).branches.len() == t.branches.len(),
{
    if t.branches.len() > 0 {
        lemma_ordered_unfold(t, depth);
    }
}

/// Where no member is deeper than the first, the first leads.
pub(crate) proof fn lemma_first_leads(depths: Seq<nat>, upto: nat)
    requires
        upto <= depths.len(),
        forall|i: int| 0 <= i < upto ==> #[trigger] depths[i] <= depths[0],
    ensures
        leader_index(depths, upto) == 0,
    decreases upto,
{
    if upto > 1 {
        lemma_first_leads(depths, (upto - 1) as nat);
    }
}

/// After promotion the first member is the deepest.
pub(crate) proof fn lemma_promoted_first_deepest(depths: Seq<nat>, i: int)
    requires
        0 <= i < depths.len(),
    ensures
        promoted(depths, depths)[i] <= promoted(depths, depths)[0],
        promoted(depths, depths)[0] == depths[leader_index(depths, depths.len()) as int],
{
    lemma_promoted_source(depths, depths, i);
    lemma_promoted_source(depths, depths, 0);
    lemma_leader_is_deepest(depths, depths.len(), source(depths, i));
}

/// Ordering a tree does not change the depth it reaches, and the first
/// branch of the ordered tree reaches at least as deep as any other.
pub proof fn lemma_ordered_reach(t: Tree, depth: nat)
    ensures
        reach(ordered(t, depth), depth) == reach(t, depth),
        forall|i: int|
            0 <= i < t.branches.len() ==> reach(
                #[trigger] ordered(t, depth).branches[i],
                depth + 1,
            ) <= reach(ordered(t, depth).branches[0], depth + 1),
    decreases t,
{
    if t.branches.len() > 0 {
        let n = t.branches.len();
        let found = reaches(t.branches, depth + 1);
        let below = ordered_each(t.branches, depth + 1);
        let after = ordered(t, depth);
        lemma_ordered_unfold(t, depth);
        assert forall|i: int| 0 <= i < n implies reach(#[trigger] below[i], depth + 1)
            == found[i] by {
            lemma_ordered_reach(t.branches[i], depth + 1);
        }
        let moved = reaches(after.branches, depth + 1);
        assert(moved =~= promoted(found, found)) by {
            assert forall|i: int| 0 <= i < n implies moved[i] == promoted(found, found)[i] by {
                lemma_promoted_source(below, found, i);
                lemma_promoted_source(found, found, i);
                assert(reach(below[source(found, i)], depth + 1) == found[source(found, i)]);
            }
        }
        assert forall|i: int| 0 <= i < n implies #[trigger] moved[i] <= moved[0] by {
            lemma_promoted_first_deepest(found, i);
        }
        lemma_first_leads(moved, n);
        lemma_promoted_first_deepest(found, 0);
        assert forall|i: int| 0 <= i < n implies reach(#[trigger] after.branches[i], depth + 1)
            <= reach(after.branches[0], depth + 1) by {
            assert(moved[i] <= moved[0]);
        }
    }
}

/// At every branch point of `t` the first branch reaches at least as
/// deep as any other.
pub open spec fn deepest_first(t: Tree, depth: nat) -> bool
    decreases t,
{
    forall|i: int|
        0 <= i < t.branches.len() ==> {
            &&& reach(#[trigger] t.branches[i], depth + 1) <= reach(t.branches[0], depth + 1)
            &&& deepest_first(t.branches[i], depth + 1)
        }
}

/// In an ordered tree the deepest branch is first at every branch
/// point: no strictly deeper sibling stays behind.
pub proof fn lemma_ordered_deepest_first(t: Tree, depth: nat)
    ensures
        deepest_first(ordered(t, depth), depth),
    decreases t,
{
    if t.branches.len() > 0 {
        let after = ordered(t, depth);
        let found = reaches(t.branches, depth + 1);
        let below = ordered_each(t.branches, depth + 1);
        lemma_ordered_unfold(t, depth);
        lemma_ordered_reach(t, depth);
        assert forall|i: int| 0 <= i < after.branches.len() implies {
            &&& reach(#[trigger] after.branches[i], depth + 1) <= reach(
                after.branches[0],
                depth + 1,
            )
            &&& deepest_first(after.branches[i], depth + 1)
        } by {
            lemma_promoted_source(below, found, i);
            lemma_ordered_deepest_first(t.branches[source(found, i)], depth + 1);
        }
    }
}

/// `after` is `before` with every progenitor list permuted and closed:
/// the root is the same, the list has the same members as often, it
/// leads back to its first member, the members are distinct where they
/// were, and the tree below each member is the tree that was below it,
/// permuted likewise.
pub open spec fn permuted(before: Tree, after: Tree) -> bool
    decreases after,
{
    &&& after.id == before.id
    &&& after.branches.len() == before.branches.len()
    &&& ids(after.branches).to_multiset() == ids(before.branches).to_multiset()
    &&& ids(before.branches).no_duplicates() ==> ids(after.branches).no_duplicates()
    &&& after.branches.len() > 0 ==> after.back == after.branches[0].id
    &&& forall|i: int|
        #![trigger after.branches[i]]
        0 <= i < after.branches.len() ==> exists|j: int|
            #![trigger before.branches[j]]
            0 <= j < before.branches.len() && permuted(before.branches[j], after.branches[i])
}

/// Ordering permutes: at every branch point the ordered tree has the
/// progenitors that the tree had, none added, none dropped and none
/// doubled, in a list that leads back to its first member.
pub proof fn lemma_ordered_permuted(t: Tree, depth: nat)
    ensures
        permuted(t, ordered(t, depth)),
    decreases t,
{
    let after = ordered(t, depth);
    if t.branches.len() > 0 {
        let found = reaches(t.branches, depth + 1);
        let below = ordered_each(t.branches, depth + 1);
        lemma_ordered_unfold(t, depth);
        assert(ids(below) =~= ids(t.branches)) by {
            assert forall|i: int| 0 <= i < below.len() implies ids(below)[i] == ids(t.branches)[i] by {
                lemma_ordered_id(t.branches[i], depth + 1);
            }
        }
        assert(ids(after.branches) =~= promoted(ids(below), found)) by {
            assert forall|i: int| 0 <= i < below.len() implies ids(after.branches)[i] == promoted(
                ids(below),
                found,
            )[i] by {
                lemma_promoted_source(below, found, i);
                lemma_promoted_source(ids(below), found, i);
            }
        }
        lemma_promoted_permutes(ids(below), found, below.len());
        assert forall|i: int|
            #![trigger after.branches[i]]
            0 <= i < after.branches.len() implies exists|j: int|
            #![trigger t.branches[j]]
            0 <= j < t.branches.len() && permuted(t.branches[j], after.branches[i]) by {
            lemma_promoted_source(below, found, i);
            let j = source(found, i);
            lemma_ordered_permuted(t.branches[j], depth + 1);
            assert(0 <= j < t.branches.len() && permuted(t.branches[j], after.branches[i]));
        }
    } else {
        assert(ids(after.branches) =~= ids(t.branches));
    }
}

/// The tree skips no snapshot: every progenitor lies one snapshot before
/// its descendant.
pub open spec fn gapless(t: Tree) -> bool
    decreases t,
{
    forall|i: int|
        0 <= i < t.branches.len() ==> {
            &&& snap_of((#[trigger] t.branches[i]).id) + 1 == snap_of(t.id)
            &&& gapless(t.branches[i])
        }
}

/// Ordering a tree that skips no snapshot gives a tree that skips none.
pub proof fn lemma_ordered_gapless(t: Tree, depth: nat)
    requires
        gapless(t),
    ensures
        gapless(ordered(t, depth)),
    decreases t,
{
    if t.branches.len() > 0 {
        let after = ordered(t, depth);
        let found = reaches(t.branches, depth + 1);
        let below = ordered_each(t.branches, depth + 1);
        lemma_ordered_unfold(t, depth);
        assert forall|i: int| 0 <= i < after.branches.len() implies {
            &&& snap_of((#[trigger] after.branches[i]).id) + 1 == snap_of(after.id)
            &&& gapless(after.branches[i])
        } by {
            lemma_promoted_source(below, found, i);
            let j = source(found, i);
            lemma_ordered_id(t.branches[j], depth + 1);
            lemma_ordered_gapless(t.branches[j], depth + 1);
            assert(snap_of(t.branches[j].id) + 1 == snap_of(t.id));
        }
    }
}

} // verus!
