//! The branch reorder engine: at every branch point of a tree the
//! deepest branch becomes the first progenitor.

use vstd::prelude::*;
use crate::error::TreeError;
use crate::forest::{Forest, HaloProps};
use crate::lineage::{lemma_reordered_once, once, tree_of};
use crate::rotate::{
    as_nats, leader_depth, leader_index, lemma_leader_in_range, lemma_promoted_members,
    lemma_promoted_permutes, lemma_relinked, promote, promoted, relink, relinked,
};
use crate::siblings::{
    all_contained, collect_siblings, lemma_chain_contained, lemma_chain_no_duplicates,
    lemma_siblings_are_chain, siblings,
};
use crate::tree::{ordered, reach};

verus! {

/// What reordering the tree below one halo gives: the forest it leaves,
/// and the depth that the tree reaches, or `None` where the forest is
/// corrupt.
pub struct Reordered {
    pub forest: Forest,
    pub depth: Option<nat>,
}

/// What reordering the trees below the members of a list gives: the
/// forest it leaves, and the depth that each tree reaches, or `None`
/// where the forest is corrupt.
pub struct ReorderedEach {
    pub forest: Forest,
    pub depths: Option<Seq<nat>>,
}

/// Reorders the tree below `id`, which stands `depth` levels below the
/// root, in a forest of `limit` snapshots.
///
/// A halo without progenitor reaches its own depth. Otherwise the trees
/// below the progenitors are reordered in list order, the list read
/// beforehand, and then the list is relinked in promoted order. The
/// forest is corrupt where a halo stands deeper than there are
/// snapshots or its progenitor list does not close; what was relinked
/// until then stays.
pub open spec fn reordered(f: Forest, id: u64, depth: nat, limit: nat) -> Reordered
    decreases limit + 1 - depth, 0nat,
{
    if depth > limit {
        Reordered { forest: f, depth: None }
    } else if f.progenitor(id) == id {
        Reordered { forest: f, depth: Some(depth) }
    } else {
        match siblings(f, id) {
            None => Reordered { forest: f, depth: None },
            Some(sibs) => {
                let below = reordered_each(f, sibs, 0, depth + 1, limit);
                match below.depths {
                    None => Reordered { forest: below.forest, depth: None },
                    Some(depths) => Reordered {
                        forest: relinked(below.forest, id, promoted(sibs, depths)),
                        depth: Some(depths[leader_index(depths, sibs.len()) as int]),
                    },
                }
            },
        }
    }
}

/// Reorders the trees below the members of `sibs` from position `from`
/// on, one after the other, each at `depth`.
pub open spec fn reordered_each(
    f: Forest,
    sibs: Seq<u64>,
    from: nat,
    depth: nat,
    limit: nat,
) -> ReorderedEach
    decreases limit + 1 - depth, sibs.len() - from + 1,
{
    if from >= sibs.len() {
        ReorderedEach { forest: f, depths: Some(Seq::empty()) }
    } else {
        let here = reordered(f, sibs[from as int], depth, limit);
        match here.depth {
            None => ReorderedEach { forest: here.forest, depths: None },
            Some(d) => {
                let rest = reordered_each(here.forest, sibs, from + 1, depth, limit);
                match rest.depths {
                    None => ReorderedEach { forest: rest.forest, depths: None },
                    Some(ds) => ReorderedEach { forest: rest.forest, depths: Some(seq![d] + ds) },
                }
            },
        }
    }
}

/// A progenitor list that does not close is refused: reordering the
/// tree below a halo whose list the walk cannot finish reports the
/// forest as corrupt and changes nothing.
pub proof fn lemma_unclosed_list_is_corrupt(f: Forest, id: u64, depth: nat, limit: nat)
    requires
        f.progenitor(id) != id,
        siblings(f, id) is None,
    ensures
        reordered(f, id, depth, limit).depth is None,
        reordered(f, id, depth, limit).forest == f,
{
}

/// `below` with `done` put before its depths.
pub open spec fn after_depths(done: Seq<nat>, below: ReorderedEach) -> ReorderedEach {
    ReorderedEach {
        forest: below.forest,
        depths: match below.depths {
            None => None,
            Some(ds) => Some(done + ds),
        },
    }
}

/// Forests with the same halos address the same halos.
pub(crate) proof fn lemma_same_halos_contains(f: Forest, g: Forest)
    requires
        g.same_halos(f),
    ensures
        forall|x: u64| g.contains(x) == f.contains(x),
        g.snapshot_count() == f.snapshot_count(),
{
    assert forall|x: u64| g.contains(x) == f.contains(x) by {
        if crate::ident::snap_of(x) < f.progenitors.len() {
            assert(g.progenitors[crate::ident::snap_of(x) as int].len()
                == f.progenitors[crate::ident::snap_of(x) as int].len());
        }
    }
}

/// Having the same halos carries over from forest to forest.
pub(crate) proof fn lemma_same_halos_trans(f: Forest, g: Forest, h: Forest)
    requires
        g.same_halos(f),
        h.same_halos(g),
    ensures
        h.same_halos(f),
{
    assert forall|s: int| 0 <= s < h.progenitors.len() implies (#[trigger] h.progenitors[s]).len()
        == f.progenitors[s].len() by {
        assert(g.progenitors[s].len() == f.progenitors[s].len());
    }
}

/// Reordering keeps a forest well formed, keeps its halos and their
/// types, and reports depths between the depth it started at and the
/// number of snapshots.
pub proof fn lemma_reordered_keeps(f: Forest, id: u64, depth: nat, limit: nat)
    requires
        f.wf(),
        f.contains(id),
    ensures
        reordered(f, id, depth, limit).forest.wf(),
        reordered(f, id, depth, limit).forest.same_halos(f),
        reordered(f, id, depth, limit).depth matches Some(d) ==> depth <= d <= limit,
    decreases limit + 1 - depth, 0nat,
{
    if depth > limit {
    } else if f.progenitor(id) == id {
    } else {
        match siblings(f, id) {
            None => {},
            Some(sibs) => {
                lemma_siblings_are_chain(f, id);
                lemma_chain_contained(f, id, sibs);
                lemma_chain_no_duplicates(f, id, sibs);
                lemma_reordered_each_keeps(f, sibs, 0, depth + 1, limit);
                let below = reordered_each(f, sibs, 0, depth + 1, limit);
                lemma_same_halos_contains(f, below.forest);
                match below.depths {
                    None => {},
                    Some(depths) => {
                        let order = promoted(sibs, depths);
                        lemma_promoted_permutes(sibs, depths, sibs.len());
                        assert(all_contained(below.forest, order)) by {
                            assert forall|i: int| 0 <= i < order.len() implies below.forest.contains(
                                #[trigger] order[i],
                            ) by {
                                lemma_promoted_members(sibs, depths, sibs.len(), i);
                            }
                        }
                        lemma_relinked(below.forest, id, order);
                        lemma_same_halos_trans(f, below.forest, relinked(below.forest, id, order));
                        lemma_leader_in_range(depths, sibs.len());
                    },
                }
            },
        }
    }
}

/// Reordering the trees below the members of a list keeps a forest well
/// formed and keeps its halos; it reports one depth for each member.
pub(crate) proof fn lemma_reordered_each_keeps(
    f: Forest,
    sibs: Seq<u64>,
    from: nat,
    depth: nat,
    limit: nat,
)
    requires
        f.wf(),
        all_contained(f, sibs),
        from <= sibs.len(),
    ensures
        reordered_each(f, sibs, from, depth, limit).forest.wf(),
        reordered_each(f, sibs, from, depth, limit).forest.same_halos(f),
        reordered_each(f, sibs, from, depth, limit).depths matches Some(ds) ==> {
            &&& ds.len() == sibs.len() - from
            &&& forall|i: int| 0 <= i < ds.len() ==> depth <= #[trigger] ds[i] <= limit
        },
    decreases limit + 1 - depth, sibs.len() - from + 1,
{
    if from < sibs.len() {
        lemma_reordered_keeps(f, sibs[from as int], depth, limit);
        let here = reordered(f, sibs[from as int], depth, limit);
        lemma_same_halos_contains(f, here.forest);
        match here.depth {
            None => {},
            Some(d) => {
                lemma_reordered_each_keeps(here.forest, sibs, from + 1, depth, limit);
                let rest = reordered_each(here.forest, sibs, from + 1, depth, limit);
                lemma_same_halos_trans(f, here.forest, rest.forest);
                match rest.depths {
                    None => {},
                    Some(ds) => {
                        let all = seq![d] + ds;
                        assert forall|i: int| 0 <= i < all.len() implies depth <= #[trigger] all[i]
                            <= limit by {
                            if i > 0 {
                                assert(all[i] == ds[i - 1]);
                            }
                        }
                    },
                }
            },
        }
    }
}

/// The depths that the branches of `id` are found to reach when the tree
/// below `id` is reordered: one for each member of its progenitor list.
pub open spec fn branch_depths(f: Forest, id: u64, depth: nat, limit: nat) -> Seq<nat> {
    reordered_each(f, siblings(f, id)->0, 0, depth + 1, limit).depths->0
}

/// Reordering permutes a progenitor list and closes it: where the tree
/// below a halo with progenitors is reordered, the progenitor list of
/// that halo afterwards is the promoted order of the list before. It has
/// the same members, each once, and its last member links back to the
/// first, which is the first progenitor.
pub proof fn lemma_reordered_list(f: Forest, id: u64, depth: nat, limit: nat)
    requires
        f.wf(),
        f.contains(id),
        f.progenitor(id) != id,
        reordered(f, id, depth, limit).depth is Some,
    ensures
        siblings(f, id) is Some,
        reordered_each(f, siblings(f, id)->0, 0, depth + 1, limit).depths is Some,
        branch_depths(f, id, depth, limit).len() == siblings(f, id)->0.len(),
        ({
            let before = siblings(f, id)->0;
            let after = promoted(before, branch_depths(f, id, depth, limit));
            let g = reordered(f, id, depth, limit).forest;
            &&& siblings(g, id) == Some(after)
            &&& after.len() == before.len()
            &&& after.to_multiset() == before.to_multiset()
            &&& after.no_duplicates()
            &&& !after.contains(id)
            &&& g.progenitor(id) == after[0]
            &&& g.next_progenitor(after.last()) == after[0]
        }),
{
    let before = siblings(f, id)->0;
    lemma_siblings_are_chain(f, id);
    lemma_chain_contained(f, id, before);
    lemma_chain_no_duplicates(f, id, before);
    lemma_reordered_each_keeps(f, before, 0, depth + 1, limit);
    let below = reordered_each(f, before, 0, depth + 1, limit);
    let depths = below.depths->0;
    let after = promoted(before, depths);
    lemma_same_halos_contains(f, below.forest);
    lemma_promoted_permutes(before, depths, before.len());
    assert forall|i: int| 0 <= i < after.len() implies below.forest.contains(#[trigger] after[i])
        && after[i] != id by {
        lemma_promoted_members(before, depths, before.len(), i);
        let j = choose|j: int| 0 <= j < before.len() && before[j] == after[i];
        assert(before[j] != id);
    }
    crate::rotate::lemma_relinked_closes(below.forest, id, after);
    lemma_relinked(below.forest, id, after);
    let g = relinked(below.forest, id, after);
    assert(g.next_progenitor(after[after.len() - 1]) == crate::rotate::successor(
        after,
        after.len() - 1,
    ));
}

/// The first progenitor after reordering is the branch found deepest: no
/// branch reaches deeper, and every branch that stood before it in the
/// list is strictly shallower. The depth reported is the depth it
/// reaches.
pub proof fn lemma_reordered_leader(f: Forest, id: u64, depth: nat, limit: nat)
    requires
        f.wf(),
        f.contains(id),
        f.progenitor(id) != id,
        reordered(f, id, depth, limit).depth is Some,
    ensures
        ({
            let before = siblings(f, id)->0;
            let depths = branch_depths(f, id, depth, limit);
            let lead = leader_index(depths, before.len()) as int;
            let g = reordered(f, id, depth, limit).forest;
            &&& 0 <= lead < before.len()
            &&& g.progenitor(id) == before[lead]
            &&& reordered(f, id, depth, limit).depth == Some(depths[lead])
            &&& forall|i: int| 0 <= i < before.len() ==> #[trigger] depths[i] <= depths[lead]
            &&& forall|i: int| 0 <= i < lead ==> #[trigger] depths[i] < depths[lead]
        }),
{
    let before = siblings(f, id)->0;
    let depths = branch_depths(f, id, depth, limit);
    lemma_reordered_list(f, id, depth, limit);
    lemma_leader_in_range(depths, before.len());
    assert forall|i: int| 0 <= i < before.len() implies #[trigger] depths[i] <= depths[leader_index(
        depths,
        before.len(),
    ) as int] by {
        crate::rotate::lemma_leader_is_deepest(depths, before.len(), i);
    }
    assert forall|i: int| 0 <= i < leader_index(depths, before.len()) implies #[trigger] depths[i]
        < depths[leader_index(depths, before.len()) as int] by {
        crate::rotate::lemma_leader_is_deepest(depths, before.len(), i);
    }
}

/// Reorders the tree below `id` so that at every branch point the
/// deepest branch is the first progenitor, and returns the depth that
/// the tree reaches, counted from `depth` at `id`.
///
/// The forest afterwards is given step by step for every forest;
/// where it holds a tree in which no halo occurs twice, it holds the
/// ordered tree afterwards. A forest that is corrupt below `id` is
/// reported, and keeps what was relinked until the fault was met.
pub fn reorder_progenitors(id: u64, depth: u32, halo_props: &mut HaloProps) -> (r: Result<
    u32,
    TreeError,
>)
    requires
        old(halo_props)@.wf(),
        old(halo_props)@.contains(id),
    ensures
        final(halo_props)@ == reordered(
            old(halo_props)@,
            id,
            depth as nat,
            old(halo_props)@.snapshot_count(),
        ).forest,
        match reordered(
            old(halo_props)@,
            id,
            depth as nat,
            old(halo_props)@.snapshot_count(),
        ).depth {
            Some(d) => r is Ok && r->Ok_0 as nat == d,
            None => r == Err::<u32, TreeError>(TreeError::CorruptForestError),
        },
        final(halo_props)@.wf(),
        final(halo_props)@.same_halos(old(halo_props)@),
        tree_of(old(halo_props)@, id, depth as nat, old(halo_props)@.snapshot_count())
            matches Some(t) ==> (once(t) ==> {
            &&& r is Ok
            &&& r->Ok_0 as nat == reach(t, depth as nat)
            &&& tree_of(
                final(halo_props)@,
                id,
                depth as nat,
                old(halo_props)@.snapshot_count(),
            ) == Some(ordered(t, depth as nat))
        }),
    decreases old(halo_props)@.snapshot_count() + 1 - depth,
{
    let ghost f0 = halo_props@;
    let ghost limit = f0.snapshot_count();
    proof {
        lemma_reordered_keeps(f0, id, depth as nat, limit);
        if tree_of(f0, id, depth as nat, limit) is Some && once(
            tree_of(f0, id, depth as nat, limit)->0,
        ) {
            lemma_reordered_once(f0, id, depth as nat, limit);
        }
    }
    if depth as usize > halo_props.snapshot_count() {
        return Err(TreeError::CorruptForestError);
    }
    let first: u64 = halo_props.progenitor(id);
    if first == id {
        return Ok(depth);
    }
    let sibs: Vec<u64> = match collect_siblings(id, halo_props) {
        Ok(sibs) => sibs,
        Err(e) => {
            return Err(e);
        },
    };
    let ghost s0 = sibs@;
    proof {
        lemma_siblings_are_chain(f0, id);
        lemma_chain_contained(f0, id, s0);
    }
    let n: usize = sibs.len();
    let mut depths: Vec<u32> = Vec::new();
    let mut k: usize = 0;
    while k < n
        invariant
            k <= n,
            n == sibs.len(),
            s0 == sibs@,
            depths.len() == k,
            f0 == old(halo_props)@,
            f0.progenitor(id) != id,
            siblings(f0, id) == Some(s0),
            tree_of(f0, id, depth as nat, limit) is Some && once(
                tree_of(f0, id, depth as nat, limit)->0,
            ) ==> reordered(f0, id, depth as nat, limit).depth is Some,
            limit == f0.snapshot_count(),
            depth as nat <= limit <= crate::forest::MAX_SNAPSHOTS,
            halo_props@.wf(),
            halo_props@.same_halos(f0),
            all_contained(halo_props@, s0),
            reordered_each(f0, s0, 0, depth as nat + 1, limit) == after_depths(
                as_nats(depths@),
                reordered_each(halo_props@, s0, k as nat, depth as nat + 1, limit),
            ),
        decreases n - k,
    {
        let ghost before = halo_props@;
        let ghost done = as_nats(depths@);
        proof {
            lemma_same_halos_contains(f0, before);
        }
        match reorder_progenitors(sibs[k], depth + 1, halo_props) {
            Err(e) => {
                return Err(e);
            },
            Ok(d) => {
                depths.push(d);
            },
        }
        proof {
            lemma_same_halos_contains(before, halo_props@);
            lemma_same_halos_trans(f0, before, halo_props@);
            let rest = reordered_each(halo_props@, s0, (k + 1) as nat, depth as nat + 1, limit);
            assert(as_nats(depths@) =~= done.push(depths@[k as int] as nat));
            match rest.depths {
                None => {},
                Some(ds) => {
                    assert(done + (seq![depths@[k as int] as nat] + ds) =~= as_nats(depths@) + ds);
                },
            }
        }
        k += 1;
    }
    proof {
        assert(as_nats(depths@) + Seq::<nat>::empty() =~= as_nats(depths@));
        lemma_promoted_permutes(s0, as_nats(depths@), n as nat);
        let order = promoted(s0, as_nats(depths@));
        assert forall|i: int| 0 <= i < order.len() implies halo_props@.contains(
            #[trigger] order[i],
        ) by {
            lemma_promoted_members(s0, as_nats(depths@), n as nat, i);
        }
        lemma_same_halos_contains(f0, halo_props@);
    }
    let lead: u32 = leader_depth(&depths);
    let order: Vec<u64> = promote(sibs, &depths);
    relink(id, &order, halo_props);
    Ok(lead)
}

} // verus!
