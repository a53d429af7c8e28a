//! The reorder engine on forests of trees: where every halo has one line
//! of descent, reordering the forest below a halo is ordering the tree
//! below it.

use vstd::prelude::*;
use crate::forest::Forest;
use crate::reorder::{
    lemma_reordered_each_keeps, lemma_reordered_keeps, lemma_reordered_list,
    lemma_same_halos_contains, lemma_same_halos_trans, reordered, reordered_each,
};
use crate::rotate::{lemma_promoted_permutes, lemma_relinked, promoted, relinked};
use crate::siblings::{
    all_contained, is_sibling_chain, lemma_chain_contained, lemma_chain_is_siblings,
    lemma_chain_no_duplicates, lemma_siblings_are_chain, siblings,
};
use crate::tree::{
    deepest_first, ids, lemma_ordered_deepest_first, lemma_ordered_id, lemma_ordered_permuted,
    lemma_ordered_unfold, lemma_promoted_source, ordered, ordered_each, permuted, reach, reaches,
    source, Tree,
};

verus! {

/// The tree below `id`, which stands `depth` levels below the root, in a
/// forest of `limit` snapshots; `None` where the forest is corrupt below
/// `id`: where a halo stands deeper than there are snapshots or a
/// progenitor list does not close.
pub open spec fn tree_of(f: Forest, id: u64, depth: nat, limit: nat) -> Option<Tree>
    decreases limit + 1 - depth, 0nat,
{
    if depth > limit {
        None
    } else if f.progenitor(id) == id {
        Some(Tree { id, branches: Seq::empty(), back: id })
    } else {
        match siblings(f, id) {
            None => None,
            Some(sibs) => match trees_from(f, sibs, 0, depth + 1, limit) {
                None => None,
                Some(branches) => Some(
                    Tree { id, branches, back: f.next_progenitor(sibs.last()) },
                ),
            },
        }
    }
}

/// The trees below the members of `sibs` from position `from` on, each
/// at `depth`.
pub open spec fn trees_from(
    f: Forest,
    sibs: Seq<u64>,
    from: nat,
    depth: nat,
    limit: nat,
) -> Option<Seq<Tree>>
    decreases limit + 1 - depth, sibs.len() - from + 1,
{
    if from >= sibs.len() {
        Some(Seq::empty())
    } else {
        match tree_of(f, sibs[from as int], depth, limit) {
            None => None,
            Some(t) => match trees_from(f, sibs, from + 1, depth, limit) {
                None => None,
                Some(rest) => Some(seq![t] + rest),
            },
        }
    }
}

/// The trees below the members of `sibs`, each at `depth`.
pub open spec fn trees_of(f: Forest, sibs: Seq<u64>, depth: nat, limit: nat) -> Option<Seq<Tree>> {
    trees_from(f, sibs, 0, depth, limit)
}

/// `x` stands under `top`: the line of descent of `x` runs through
/// `top`.
pub open spec fn under(lines: spec_fn(u64) -> Seq<u64>, top: u64, x: u64) -> bool {
    lines(top).is_prefix_of(lines(x))
}

/// `lines` gives the halos of `t` their lines of descent: the line of
/// each progenitor is the line of its descendant with the progenitor
/// added. A halo has one line, so no halo occurs twice in such a tree.
pub open spec fn tree_shaped(t: Tree, lines: spec_fn(u64) -> Seq<u64>) -> bool
    decreases t,
{
    forall|i: int|
        0 <= i < t.branches.len() ==> {
            &&& lines((#[trigger] t.branches[i]).id) == lines(t.id).push(t.branches[i].id)
            &&& tree_shaped(t.branches[i], lines)
        }
}

/// `g` has the halos of `f`, and the links that `f` has under `top`,
/// but perhaps for the next-progenitor link of `top` itself.
pub open spec fn agree_under(f: Forest, g: Forest, lines: spec_fn(u64) -> Seq<u64>, top: u64) -> bool {
    &&& g.same_halos(f)
    &&& forall|x: u64|
        #![trigger g.progenitor(x)]
        f.contains(x) && under(lines, top, x) ==> g.progenitor(x) == f.progenitor(x)
    &&& forall|x: u64|
        #![trigger g.next_progenitor(x)]
        f.contains(x) && under(lines, top, x) && x != top ==> g.next_progenitor(x)
            == f.next_progenitor(x)
}

/// `g` has the halos of `f` and differs from `f` under `top` only, and
/// not in the next-progenitor link of `top` itself.
pub open spec fn changed_under(
    f: Forest,
    g: Forest,
    lines: spec_fn(u64) -> Seq<u64>,
    top: u64,
) -> bool {
    &&& g.same_halos(f)
    &&& forall|x: u64|
        #![trigger g.progenitor(x)]
        f.contains(x) && !under(lines, top, x) ==> g.progenitor(x) == f.progenitor(x)
    &&& forall|x: u64|
        #![trigger g.next_progenitor(x)]
        f.contains(x) && (!under(lines, top, x) || x == top) ==> g.next_progenitor(x)
            == f.next_progenitor(x)
}

/// A progenitor stands under its descendant, and what stands under the
/// progenitor stands under the descendant and is not the descendant.
pub(crate) proof fn lemma_child_under(lines: spec_fn(u64) -> Seq<u64>, n: u64, c: u64)
    requires
        lines(c) == lines(n).push(c),
    ensures
        c != n,
        under(lines, n, c),
        forall|x: u64| under(lines, c, x) ==> under(lines, n, x) && x != n,
{
    let ln = lines(n);
    let lc = lines(c);
    assert(ln =~= lc.subrange(0, ln.len() as int));
    assert forall|x: u64| under(lines, c, x) implies under(lines, n, x) && x != n by {
        let lx = lines(x);
        assert(ln =~= lx.subrange(0, ln.len() as int)) by {
            assert(lc =~= lx.subrange(0, lc.len() as int));
            assert forall|k: int| 0 <= k < ln.len() implies #[trigger] ln[k] == lx[k] by {
                assert(lc[k] == lx.subrange(0, lc.len() as int)[k]);
            }
        }
    }
}

/// Nothing stands under two progenitors of one halo.
pub(crate) proof fn lemma_siblings_apart(lines: spec_fn(u64) -> Seq<u64>, n: u64, c1: u64, c2: u64, x: u64)
    requires
        lines(c1) == lines(n).push(c1),
        lines(c2) == lines(n).push(c2),
        c1 != c2,
    ensures
        !(under(lines, c1, x) && under(lines, c2, x)),
{
    if under(lines, c1, x) && under(lines, c2, x) {
        let k = lines(n).len() as int;
        assert(lines(c1)[k] == lines(x).subrange(0, lines(c1).len() as int)[k]);
        assert(lines(c2)[k] == lines(x).subrange(0, lines(c2).len() as int)[k]);
    }
}

/// The tree below a halo has the halo at its root.
pub(crate) proof fn lemma_tree_of_id(f: Forest, id: u64, depth: nat, limit: nat)
    requires
        tree_of(f, id, depth, limit) is Some,
    ensures
        tree_of(f, id, depth, limit)->0.id == id,
{
}

/// A halo stands under itself.
pub(crate) proof fn lemma_under_self(lines: spec_fn(u64) -> Seq<u64>, x: u64)
    ensures
        under(lines, x, x),
{
    assert(lines(x) =~= lines(x).subrange(0, lines(x).len() as int));
}

/// A forest that agrees with another under a halo agrees with it under
/// each progenitor of the halo, and in the next-progenitor link of the
/// progenitor.
pub(crate) proof fn lemma_agree_child(
    f: Forest,
    g: Forest,
    lines: spec_fn(u64) -> Seq<u64>,
    n: u64,
    c: u64,
)
    requires
        agree_under(f, g, lines, n),
        lines(c) == lines(n).push(c),
    ensures
        agree_under(f, g, lines, c),
        f.contains(c) ==> g.next_progenitor(c) == f.next_progenitor(c),
{
    lemma_child_under(lines, n, c);
    lemma_under_self(lines, c);
}

/// A sibling chain is read from the first-progenitor link of the halo
/// and the next-progenitor links of its members: a forest that has
/// these has the chain.
pub(crate) proof fn lemma_chain_agrees(f: Forest, g: Forest, n: u64, s: Seq<u64>)
    requires
        is_sibling_chain(f, n, s),
        g.progenitor(n) == f.progenitor(n),
        forall|i: int| 0 <= i < s.len() ==> g.next_progenitor(#[trigger] s[i]) == f.next_progenitor(
            s[i],
        ),
    ensures
        is_sibling_chain(g, n, s),
        siblings(g, n) == Some(s),
        g.next_progenitor(s.last()) == f.next_progenitor(s.last()),
{
    assert forall|i: int| 0 <= i < s.len() - 1 implies g.next_progenitor(#[trigger] s[i]) == s[i
        + 1] by {
        assert(f.next_progenitor(s[i]) == s[i + 1]);
    }
    assert(g.next_progenitor(s[s.len() - 1]) == f.next_progenitor(s[s.len() - 1]));
    lemma_chain_is_siblings(g, n, s);
}

/// What the trees below the members of a list from a position on are.
pub(crate) proof fn lemma_trees_from(f: Forest, sibs: Seq<u64>, from: nat, depth: nat, limit: nat)
    requires
        from <= sibs.len(),
    ensures
        trees_from(f, sibs, from, depth, limit) is Some <==> (forall|i: int|
            from <= i < sibs.len() ==> (#[trigger] tree_of(f, sibs[i], depth, limit)) is Some),
        trees_from(f, sibs, from, depth, limit) is Some ==> {
            &&& trees_from(f, sibs, from, depth, limit)->0.len() == sibs.len() - from
            &&& forall|i: int|
                from <= i < sibs.len() ==> (#[trigger] tree_of(f, sibs[i], depth, limit)) == Some(
                    trees_from(f, sibs, from, depth, limit)->0[i - from],
                )
        },
    decreases sibs.len() - from,
{
    if from < sibs.len() {
        lemma_trees_from(f, sibs, from + 1, depth, limit);
        let here = tree_of(f, sibs[from as int], depth, limit);
        let rest = trees_from(f, sibs, from + 1, depth, limit);
        if here is Some && rest is Some {
            let all = seq![here->0] + rest->0;
            assert(trees_from(f, sibs, from, depth, limit) == Some(all));
            assert forall|i: int| from <= i < sibs.len() implies (#[trigger] tree_of(
                f,
                sibs[i],
                depth,
                limit,
            )) == Some(all[i - from]) by {
                if i > from {
                    assert(all[i - from] == rest->0[i - from - 1]);
                }
            }
        }
    }
}

/// What the trees below the members of a list are.
pub(crate) proof fn lemma_trees_of(f: Forest, sibs: Seq<u64>, depth: nat, limit: nat)
    ensures
        trees_of(f, sibs, depth, limit) is Some <==> (forall|i: int|
            0 <= i < sibs.len() ==> (#[trigger] tree_of(f, sibs[i], depth, limit)) is Some),
        trees_of(f, sibs, depth, limit) is Some ==> {
            &&& trees_of(f, sibs, depth, limit)->0.len() == sibs.len()
            &&& forall|i: int|
                0 <= i < sibs.len() ==> (#[trigger] tree_of(f, sibs[i], depth, limit)) == Some(
                    trees_of(f, sibs, depth, limit)->0[i],
                )
        },
{
    lemma_trees_from(f, sibs, 0, depth, limit);
}

/// The trees below the members of a list are `ts` where the tree below
/// each member is the member of `ts` at its place.
pub(crate) proof fn lemma_trees_of_are(f: Forest, sibs: Seq<u64>, depth: nat, limit: nat, ts: Seq<Tree>)
    requires
        ts.len() == sibs.len(),
        forall|i: int|
            0 <= i < sibs.len() ==> (#[trigger] tree_of(f, sibs[i], depth, limit)) == Some(ts[i]),
    ensures
        trees_of(f, sibs, depth, limit) == Some(ts),
{
    lemma_trees_of(f, sibs, depth, limit);
    assert(trees_of(f, sibs, depth, limit) is Some);
    let found = trees_of(f, sibs, depth, limit)->0;
    assert forall|i: int| 0 <= i < sibs.len() implies found[i] == ts[i] by {
        assert(tree_of(f, sibs[i], depth, limit) == Some(found[i]));
    }
    assert(found =~= ts);
}

/// What the tree below a halo with progenitors is made of.
pub(crate) proof fn lemma_tree_of_branches(f: Forest, id: u64, depth: nat, limit: nat)
    requires
        tree_of(f, id, depth, limit) is Some,
    ensures
        tree_of(f, id, depth, limit)->0.id == id,
        depth <= limit,
        f.progenitor(id) == id ==> tree_of(f, id, depth, limit)->0.branches.len() == 0,
        f.progenitor(id) != id ==> {
            let t = tree_of(f, id, depth, limit)->0;
            &&& siblings(f, id) is Some
            &&& t.branches.len() == siblings(f, id)->0.len()
            &&& t.branches.len() >= 1
            &&& ids(t.branches) == siblings(f, id)->0
            &&& t.back == f.next_progenitor(siblings(f, id)->0.last())
            &&& forall|i: int|
                0 <= i < t.branches.len() ==> tree_of(
                    f,
                    #[trigger] siblings(f, id)->0[i],
                    depth + 1,
                    limit,
                ) == Some(t.branches[i])
        },
{
    if f.progenitor(id) != id {
        let t = tree_of(f, id, depth, limit)->0;
        let s = siblings(f, id)->0;
        lemma_siblings_are_chain(f, id);
        lemma_trees_of(f, s, depth + 1, limit);
        assert(t.branches == trees_of(f, s, depth + 1, limit)->0);
        assert forall|i: int| 0 <= i < t.branches.len() implies tree_of(
            f,
            #[trigger] s[i],
            depth + 1,
            limit,
        ) == Some(t.branches[i]) && t.branches[i].id == s[i] by {
            assert(tree_of(f, s[i], depth + 1, limit) == Some(
                trees_of(f, s, depth + 1, limit)->0[i],
            ));
            lemma_tree_of_id(f, s[i], depth + 1, limit);
        }
        assert(ids(t.branches) =~= s);
    }
}

/// The tree below a halo is read from the links under the halo: a
/// forest that agrees on them holds the same tree.
pub proof fn lemma_tree_of_agrees(
    f: Forest,
    g: Forest,
    lines: spec_fn(u64) -> Seq<u64>,
    id: u64,
    depth: nat,
    limit: nat,
)
    requires
        f.wf(),
        f.contains(id),
        agree_under(f, g, lines, id),
        tree_of(f, id, depth, limit) is Some,
        tree_shaped(tree_of(f, id, depth, limit)->0, lines),
    ensures
        tree_of(g, id, depth, limit) == tree_of(f, id, depth, limit),
    decreases limit + 1 - depth,
{
    let t = tree_of(f, id, depth, limit)->0;
    lemma_tree_of_branches(f, id, depth, limit);
    lemma_under_self(lines, id);
    assert(g.progenitor(id) == f.progenitor(id));
    if f.progenitor(id) != id {
        let s = siblings(f, id)->0;
        lemma_siblings_are_chain(f, id);
        lemma_chain_contained(f, id, s);
        assert forall|i: int| 0 <= i < s.len() implies lines(#[trigger] s[i]) == lines(id).push(
            s[i],
        ) by {
            assert(t.branches[i].id == ids(t.branches)[i]);
        }
        assert forall|i: int| 0 <= i < s.len() implies g.next_progenitor(#[trigger] s[i])
            == f.next_progenitor(s[i]) by {
            lemma_agree_child(f, g, lines, id, s[i]);
        }
        lemma_chain_agrees(f, g, id, s);
        assert forall|i: int| 0 <= i < s.len() implies (#[trigger] tree_of(
            g,
            s[i],
            depth + 1,
            limit,
        )) == Some(t.branches[i]) by {
            lemma_agree_child(f, g, lines, id, s[i]);
            assert(tree_of(f, s[i], depth + 1, limit) == Some(t.branches[i]));
            lemma_tree_of_agrees(f, g, lines, s[i], depth + 1, limit);
        }
        lemma_trees_of_are(g, s, depth + 1, limit, t.branches);
    }
}

/// Ordering keeps the lines of descent.
pub(crate) proof fn lemma_ordered_shaped(t: Tree, lines: spec_fn(u64) -> Seq<u64>, depth: nat)
    requires
        tree_shaped(t, lines),
    ensures
        tree_shaped(ordered(t, depth), lines),
    decreases t,
{
    if t.branches.len() > 0 {
        let after = ordered(t, depth);
        let found = reaches(t.branches, depth + 1);
        let below = ordered_each(t.branches, depth + 1);
        lemma_ordered_unfold(t, depth);
        assert forall|i: int| 0 <= i < after.branches.len() implies {
            &&& lines((#[trigger] after.branches[i]).id) == lines(after.id).push(
                after.branches[i].id,
            )
            &&& tree_shaped(after.branches[i], lines)
        } by {
            lemma_promoted_source(below, found, i);
            let j = source(found, i);
            lemma_ordered_id(t.branches[j], depth + 1);
            lemma_ordered_shaped(t.branches[j], lines, depth + 1);
            assert(lines(t.branches[j].id) == lines(t.id).push(t.branches[j].id));
        }
    }
}

/// Reordering the forest below a halo is ordering the tree below it.
///
/// Where the forest holds a tree below `id` and every halo of the tree
/// has one line of descent, reordering succeeds, reports the depth that
/// the tree reaches, leaves the ordered tree below `id`, and changes no
/// link but under `id`.
pub proof fn lemma_reordered_tree(
    f: Forest,
    lines: spec_fn(u64) -> Seq<u64>,
    id: u64,
    depth: nat,
    limit: nat,
)
    requires
        f.wf(),
        f.contains(id),
        tree_of(f, id, depth, limit) is Some,
        tree_shaped(tree_of(f, id, depth, limit)->0, lines),
    ensures
        reordered(f, id, depth, limit).depth == Some(
            reach(tree_of(f, id, depth, limit)->0, depth),
        ),
        tree_of(reordered(f, id, depth, limit).forest, id, depth, limit) == Some(
            ordered(tree_of(f, id, depth, limit)->0, depth),
        ),
        changed_under(f, reordered(f, id, depth, limit).forest, lines, id),
    decreases limit + 1 - depth, 0nat,
{
    let t = tree_of(f, id, depth, limit)->0;
    lemma_tree_of_branches(f, id, depth, limit);
    if f.progenitor(id) != id {
        let s = siblings(f, id)->0;
        let ts = t.branches;
        let n = s.len();
        lemma_siblings_are_chain(f, id);
        lemma_chain_contained(f, id, s);
        lemma_chain_no_duplicates(f, id, s);
        assert forall|j: int| 0 <= j < n implies lines(#[trigger] s[j]) == lines(id).push(s[j]) by {
            assert(ts[j].id == ids(ts)[j]);
        }
        lemma_reordered_each_tree(f, lines, id, s, 0, depth + 1, limit, ts);
        lemma_reordered_each_keeps(f, s, 0, depth + 1, limit);
        let below = reordered_each(f, s, 0, depth + 1, limit);
        let found = reaches(ts, depth + 1);
        assert(found.subrange(0, n as int) =~= found);
        let order = promoted(s, found);
        let r = relinked(below.forest, id, order);
        assert(reordered(f, id, depth, limit).forest == r);
        lemma_same_halos_contains(f, below.forest);
        lemma_reordered_list(f, id, depth, limit);
        lemma_promoted_permutes(s, found, n);
        assert forall|i: int| 0 <= i < order.len() implies below.forest.contains(
            #[trigger] order[i],
        ) && lines(order[i]) == lines(id).push(order[i]) by {
            lemma_promoted_source(s, found, i);
        }
        let after = ordered(t, depth);
        lemma_ordered_unfold(t, depth);
        let aimed = ordered_each(ts, depth + 1);
        assert forall|i: int| 0 <= i < n implies (#[trigger] tree_of(r, order[i], depth + 1, limit))
            == Some(after.branches[i]) by {
            lemma_promoted_source(s, found, i);
            lemma_promoted_source(aimed, found, i);
            let j = source(found, i);
            assert(tree_of(below.forest, s[j], depth + 1, limit) == Some(ordered(ts[j], depth + 1)));
            lemma_ordered_shaped(ts[j], lines, depth + 1);
            lemma_relinked_agrees(below.forest, lines, id, order, i);
            lemma_tree_of_agrees(below.forest, r, lines, s[j], depth + 1, limit);
        }
        lemma_trees_of_are(r, order, depth + 1, limit, after.branches);
        assert(after.back == order[0]) by {
            lemma_promoted_source(s, found, 0);
            lemma_promoted_source(aimed, found, 0);
            lemma_ordered_id(ts[source(found, 0)], depth + 1);
            assert(ts[source(found, 0)].id == ids(ts)[source(found, 0)]);
        }
        lemma_each_changed(f, lines, id, s, below.forest);
        lemma_relinked_changed(below.forest, lines, id, order);
        lemma_changed_trans(f, below.forest, r, lines, id);
    } else {
        assert(changed_under(f, f, lines, id));
    }
}

/// Relinking the progenitor list of a halo leaves the links under each
/// member as they are, but for the member's own next-progenitor link.
pub(crate) proof fn lemma_relinked_agrees(
    h: Forest,
    lines: spec_fn(u64) -> Seq<u64>,
    n: u64,
    order: Seq<u64>,
    i: int,
)
    requires
        h.wf(),
        h.contains(n),
        all_contained(h, order),
        order.no_duplicates(),
        0 <= i < order.len(),
        forall|k: int| 0 <= k < order.len() ==> lines(#[trigger] order[k]) == lines(n).push(order[k]),
    ensures
        agree_under(h, relinked(h, n, order), lines, order[i]),
{
    let r = relinked(h, n, order);
    let c = order[i];
    lemma_relinked(h, n, order);
    lemma_child_under(lines, n, c);
    assert forall|x: u64|
        #![trigger r.next_progenitor(x)]
        h.contains(x) && under(lines, c, x) && x != c implies r.next_progenitor(x)
            == h.next_progenitor(x) by {
        if order.contains(x) {
            let k = choose|k: int| 0 <= k < order.len() && order[k] == x;
            lemma_under_self(lines, x);
            lemma_siblings_apart(lines, n, c, order[k], x);
        }
    }
}

/// Relinking the progenitor list of a halo changes links under the halo
/// only, and not its own next-progenitor link.
pub(crate) proof fn lemma_relinked_changed(
    h: Forest,
    lines: spec_fn(u64) -> Seq<u64>,
    n: u64,
    order: Seq<u64>,
)
    requires
        h.wf(),
        h.contains(n),
        all_contained(h, order),
        order.no_duplicates(),
        order.len() >= 1,
        forall|k: int| 0 <= k < order.len() ==> lines(#[trigger] order[k]) == lines(n).push(order[k]),
    ensures
        changed_under(h, relinked(h, n, order), lines, n),
{
    let r = relinked(h, n, order);
    lemma_relinked(h, n, order);
    lemma_under_self(lines, n);
    assert forall|x: u64|
        #![trigger r.next_progenitor(x)]
        h.contains(x) && (!under(lines, n, x) || x == n) implies r.next_progenitor(x)
            == h.next_progenitor(x) by {
        if order.contains(x) {
            let k = choose|k: int| 0 <= k < order.len() && order[k] == x;
            lemma_child_under(lines, n, order[k]);
        }
    }
}

/// Changes under a halo, one after the other, are changes under the
/// halo.
pub(crate) proof fn lemma_changed_trans(
    f: Forest,
    g: Forest,
    h: Forest,
    lines: spec_fn(u64) -> Seq<u64>,
    n: u64,
)
    requires
        changed_under(f, g, lines, n),
        changed_under(g, h, lines, n),
    ensures
        changed_under(f, h, lines, n),
{
    lemma_same_halos_contains(f, g);
    lemma_same_halos_trans(f, g, h);
    assert forall|x: u64|
        #![trigger h.progenitor(x)]
        f.contains(x) && !under(lines, n, x) implies h.progenitor(x) == f.progenitor(x) by {
        assert(g.progenitor(x) == f.progenitor(x));
    }
    assert forall|x: u64|
        #![trigger h.next_progenitor(x)]
        f.contains(x) && (!under(lines, n, x) || x == n) implies h.next_progenitor(x)
            == f.next_progenitor(x) by {
        assert(g.next_progenitor(x) == f.next_progenitor(x));
    }
}

/// `out` differs from `g` only under the members of `sibs` from `from`
/// on, and not in the next-progenitor links of members.
pub open spec fn changed_under_each(
    g: Forest,
    out: Forest,
    lines: spec_fn(u64) -> Seq<u64>,
    sibs: Seq<u64>,
    from: nat,
) -> bool {
    &&& out.same_halos(g)
    &&& forall|x: u64|
        #![trigger out.progenitor(x)]
        g.contains(x) && apart_from(lines, sibs, from, x) ==> out.progenitor(x) == g.progenitor(x)
    &&& forall|x: u64|
        #![trigger out.next_progenitor(x)]
        g.contains(x) && (apart_from(lines, sibs, from, x) || sibs.contains(x))
            ==> out.next_progenitor(x) == g.next_progenitor(x)
}

/// `x` stands under no member of `sibs` from `from` on.
pub open spec fn apart_from(
    lines: spec_fn(u64) -> Seq<u64>,
    sibs: Seq<u64>,
    from: nat,
    x: u64,
) -> bool {
    forall|j: int| from <= j < sibs.len() ==> !under(lines, #[trigger] sibs[j], x)
}

/// What changes under the progenitors of a halo only changes under the
/// halo.
pub(crate) proof fn lemma_each_changed(
    f: Forest,
    lines: spec_fn(u64) -> Seq<u64>,
    n: u64,
    sibs: Seq<u64>,
    out: Forest,
)
    requires
        changed_under_each(f, out, lines, sibs, 0),
        forall|j: int| 0 <= j < sibs.len() ==> lines(#[trigger] sibs[j]) == lines(n).push(sibs[j]),
    ensures
        changed_under(f, out, lines, n),
{
    lemma_under_self(lines, n);
    assert forall|x: u64| !under(lines, n, x) || x == n implies apart_from(lines, sibs, 0, x) by {
        assert forall|j: int| 0 <= j < sibs.len() implies !under(lines, #[trigger] sibs[j], x) by {
            lemma_child_under(lines, n, sibs[j]);
        }
    }
}

/// The same, for the progenitors of one halo: reordering the forest
/// below them one after the other orders the tree below each, reports
/// the depth that each reaches, and changes no link but under them, and
/// not their own next-progenitor links.
pub(crate) proof fn lemma_reordered_each_tree(
    g: Forest,
    lines: spec_fn(u64) -> Seq<u64>,
    n: u64,
    sibs: Seq<u64>,
    from: nat,
    depth: nat,
    limit: nat,
    ts: Seq<Tree>,
)
    requires
        g.wf(),
        all_contained(g, sibs),
        sibs.no_duplicates(),
        from <= sibs.len(),
        ts.len() == sibs.len(),
        forall|j: int| 0 <= j < sibs.len() ==> lines(#[trigger] sibs[j]) == lines(n).push(sibs[j]),
        forall|j: int|
            from <= j < sibs.len() ==> (#[trigger] tree_of(g, sibs[j], depth, limit)) == Some(
                ts[j],
            ),
        forall|j: int| from <= j < sibs.len() ==> tree_shaped(#[trigger] ts[j], lines),
    ensures
        reordered_each(g, sibs, from, depth, limit).depths == Some(
            reaches(ts, depth).subrange(from as int, sibs.len() as int),
        ),
        forall|j: int|
            from <= j < sibs.len() ==> (#[trigger] tree_of(
                reordered_each(g, sibs, from, depth, limit).forest,
                sibs[j],
                depth,
                limit,
            )) == Some(ordered(ts[j], depth)),
        changed_under_each(
            g,
            reordered_each(g, sibs, from, depth, limit).forest,
            lines,
            sibs,
            from,
        ),
    decreases limit + 1 - depth, sibs.len() - from + 1,
{
    let len = sibs.len() as int;
    let out = reordered_each(g, sibs, from, depth, limit);
    if from >= sibs.len() {
        assert(reaches(ts, depth).subrange(from as int, len) =~= Seq::<nat>::empty());
    } else {
        let s = sibs[from as int];
        assert(tree_of(g, s, depth, limit) == Some(ts[from as int]));
        lemma_reordered_tree(g, lines, s, depth, limit);
        lemma_reordered_keeps(g, s, depth, limit);
        let here = reordered(g, s, depth, limit);
        let h = here.forest;
        lemma_same_halos_contains(g, h);
        assert forall|j: int| from + 1 <= j < len implies (#[trigger] tree_of(
            h,
            sibs[j],
            depth,
            limit,
        )) == Some(ts[j]) by {
            assert(tree_of(g, sibs[j], depth, limit) == Some(ts[j]));
            assert(agree_under(g, h, lines, sibs[j])) by {
                assert forall|x: u64| under(lines, sibs[j], x) implies !under(lines, s, x) by {
                    lemma_siblings_apart(lines, n, sibs[j], s, x);
                }
            }
            lemma_tree_of_agrees(g, h, lines, sibs[j], depth, limit);
        }
        lemma_reordered_each_tree(h, lines, n, sibs, from + 1, depth, limit, ts);
        lemma_reordered_each_keeps(h, sibs, from + 1, depth, limit);
        let rest = reordered_each(h, sibs, from + 1, depth, limit);
        lemma_same_halos_trans(g, h, rest.forest);
        assert(out.forest == rest.forest);
        assert(out.depths == Some(seq![here.depth->0] + rest.depths->0));
        assert(seq![reach(ts[from as int], depth)] + reaches(ts, depth).subrange(from as int + 1, len)
            =~= reaches(ts, depth).subrange(from as int, len));
        assert(tree_of(out.forest, s, depth, limit) == Some(ordered(ts[from as int], depth))) by {
            lemma_ordered_shaped(ts[from as int], lines, depth);
            assert(agree_under(h, out.forest, lines, s)) by {
                assert forall|x: u64| under(lines, s, x) implies apart_from(
                    lines,
                    sibs,
                    from + 1,
                    x,
                ) by {
                    assert forall|j: int| from + 1 <= j < len implies !under(
                        lines,
                        #[trigger] sibs[j],
                        x,
                    ) by {
                        lemma_siblings_apart(lines, n, sibs[j], s, x);
                    }
                }
            }
            lemma_tree_of_agrees(h, out.forest, lines, s, depth, limit);
        }
        lemma_each_step_changed(g, h, out.forest, lines, n, sibs, from);
    }
}

/// A change under one member followed by changes under the members
/// after it is a change under the members from that one on.
pub(crate) proof fn lemma_each_step_changed(
    g: Forest,
    h: Forest,
    out: Forest,
    lines: spec_fn(u64) -> Seq<u64>,
    n: u64,
    sibs: Seq<u64>,
    from: nat,
)
    requires
        from < sibs.len(),
        sibs.no_duplicates(),
        forall|j: int| 0 <= j < sibs.len() ==> lines(#[trigger] sibs[j]) == lines(n).push(sibs[j]),
        changed_under(g, h, lines, sibs[from as int]),
        changed_under_each(h, out, lines, sibs, from + 1),
    ensures
        changed_under_each(g, out, lines, sibs, from),
{
    let s = sibs[from as int];
    lemma_same_halos_contains(g, h);
    lemma_same_halos_trans(g, h, out);
    assert forall|x: u64|
        #![trigger out.progenitor(x)]
        g.contains(x) && apart_from(lines, sibs, from, x) implies out.progenitor(x)
            == g.progenitor(x) by {
        assert(!under(lines, sibs[from as int], x));
        assert(apart_from(lines, sibs, from + 1, x));
        assert(h.progenitor(x) == g.progenitor(x));
    }
    assert forall|x: u64|
        #![trigger out.next_progenitor(x)]
        g.contains(x) && (apart_from(lines, sibs, from, x) || sibs.contains(x))
            implies out.next_progenitor(x) == g.next_progenitor(x) by {
        if sibs.contains(x) {
            let k = choose|k: int| 0 <= k < sibs.len() && sibs[k] == x;
            lemma_under_self(lines, x);
            if k != from {
                lemma_siblings_apart(lines, n, s, sibs[k], x);
            }
        } else {
            assert(!under(lines, sibs[from as int], x));
            assert(apart_from(lines, sibs, from + 1, x));
        }
        assert(h.next_progenitor(x) == g.next_progenitor(x));
    }
}

/// The halos of a tree, the root first and then the halos of each
/// branch in list order.
pub open spec fn halos(t: Tree) -> Seq<u64>
    decreases t, 0nat,
{
    seq![t.id] + halos_from(t.branches, 0)
}

/// The halos of the trees `ts` from position `from` on.
pub open spec fn halos_from(ts: Seq<Tree>, from: nat) -> Seq<u64>
    decreases ts, ts.len() - from,
{
    if from >= ts.len() {
        Seq::empty()
    } else {
        halos(ts[from as int]) + halos_from(ts, from + 1)
    }
}

/// No halo occurs twice in the tree.
pub open spec fn once(t: Tree) -> bool {
    halos(t).no_duplicates()
}

/// The line of descent of `x` within `t`: the halos from the root of
/// `t` down to `x`; empty where `x` is no halo of `t`.
pub open spec fn line(t: Tree, x: u64) -> Seq<u64>
    decreases t,
{
    if x == t.id {
        seq![x]
    } else if exists|i: int| 0 <= i < t.branches.len() && halos(#[trigger] t.branches[i]).contains(x) {
        let i = choose|i: int|
            0 <= i < t.branches.len() && halos(#[trigger] t.branches[i]).contains(x);
        seq![t.id] + line(t.branches[i], x)
    } else {
        Seq::empty()
    }
}

/// The lines of descent within `t`.
pub open spec fn lines_in(t: Tree) -> spec_fn(u64) -> Seq<u64> {
    |x: u64| line(t, x)
}

/// A list without doubles is made of parts without doubles that have
/// no member in common.
pub(crate) proof fn lemma_parts_no_duplicates(a: Seq<u64>, b: Seq<u64>)
    requires
        (a + b).no_duplicates(),
    ensures
        a.no_duplicates(),
        b.no_duplicates(),
        forall|x: u64| !(a.contains(x) && b.contains(x)),
{
    let all = a + b;
    assert forall|i: int, j: int| 0 <= i < a.len() && 0 <= j < a.len() && i != j implies a[i]
        != a[j] by {
        assert(all[i] == a[i] && all[j] == a[j]);
    }
    assert forall|i: int, j: int| 0 <= i < b.len() && 0 <= j < b.len() && i != j implies b[i]
        != b[j] by {
        assert(all[a.len() + i] == b[i] && all[a.len() + j] == b[j]);
    }
    assert forall|x: u64| !(a.contains(x) && b.contains(x)) by {
        if a.contains(x) && b.contains(x) {
            let i = choose|i: int| 0 <= i < a.len() && a[i] == x;
            let j = choose|j: int| 0 <= j < b.len() && b[j] == x;
            assert(all[i] == x && all[a.len() + j] == x);
        }
    }
}

/// The halos of each tree of a list are among the halos of the list.
pub(crate) proof fn lemma_halos_from_holds(ts: Seq<Tree>, from: nat, i: int, x: u64)
    requires
        from <= i < ts.len(),
        halos(ts[i]).contains(x),
    ensures
        halos_from(ts, from).contains(x),
    decreases ts.len() - from,
{
    let here = halos(ts[from as int]);
    let rest = halos_from(ts, from + 1);
    if i == from {
        let k = choose|k: int| 0 <= k < here.len() && here[k] == x;
        assert((here + rest)[k] == x);
    } else {
        lemma_halos_from_holds(ts, from + 1, i, x);
        let k = choose|k: int| 0 <= k < rest.len() && rest[k] == x;
        assert((here + rest)[here.len() + k] == x);
    }
}

/// Where no halo occurs twice among the halos of a list of trees, none
/// occurs twice in a tree of the list and none occurs in two trees.
pub(crate) proof fn lemma_halos_from_apart(ts: Seq<Tree>, from: nat, i: int, j: int, x: u64)
    requires
        halos_from(ts, from).no_duplicates(),
        from <= i < ts.len(),
        from <= j < ts.len(),
    ensures
        once(ts[i]),
        i != j ==> !(halos(ts[i]).contains(x) && halos(ts[j]).contains(x)),
    decreases ts.len() - from,
{
    let here = halos(ts[from as int]);
    let rest = halos_from(ts, from + 1);
    lemma_parts_no_duplicates(here, rest);
    if i > from {
        if j > from {
            lemma_halos_from_apart(ts, from + 1, i, j, x);
        } else {
            lemma_halos_from_apart(ts, from + 1, i, i, x);
            if halos(ts[i]).contains(x) {
                lemma_halos_from_holds(ts, from + 1, i, x);
            }
        }
    } else if j > from {
        if halos(ts[j]).contains(x) {
            lemma_halos_from_holds(ts, from + 1, j, x);
        }
    }
}

/// A tree holds its root and the halos of its branches; where no halo
/// occurs twice in it, none occurs twice in a branch, none in two
/// branches, and the root in no branch.
pub(crate) proof fn lemma_halos_of_branches(t: Tree, i: int, j: int, x: u64)
    requires
        0 <= i < t.branches.len(),
        0 <= j < t.branches.len(),
    ensures
        halos(t).contains(t.id),
        halos(t.branches[i]).contains(x) ==> halos(t).contains(x),
        once(t) ==> once(t.branches[i]),
        once(t) && halos(t.branches[i]).contains(x) ==> x != t.id,
        once(t) && i != j ==> !(halos(t.branches[i]).contains(x) && halos(t.branches[j]).contains(
            x,
        )),
{
    let below = halos_from(t.branches, 0);
    assert(halos(t)[0] == t.id);
    if halos(t.branches[i]).contains(x) {
        lemma_halos_from_holds(t.branches, 0, i, x);
        let k = choose|k: int| 0 <= k < below.len() && below[k] == x;
        assert(halos(t)[1 + k] == x);
    }
    if once(t) {
        lemma_parts_no_duplicates(seq![t.id], below);
        assert(seq![t.id].contains(t.id)) by {
            assert(seq![t.id][0] == t.id);
        }
        lemma_halos_from_apart(t.branches, 0, i, j, x);
    }
}

/// Within a tree in which no halo occurs twice, the line of a halo of a
/// branch is the root followed by its line within the branch.
pub(crate) proof fn lemma_line_through(t: Tree, i: int, x: u64)
    requires
        once(t),
        0 <= i < t.branches.len(),
        halos(t.branches[i]).contains(x),
    ensures
        line(t, x) == seq![t.id] + line(t.branches[i], x),
{
    lemma_halos_of_branches(t, i, i, x);
    let j = choose|j: int| 0 <= j < t.branches.len() && halos(#[trigger] t.branches[j]).contains(x);
    lemma_halos_of_branches(t, i, j, x);
}

/// Lines of descent stay lines of descent when all of them are
/// prolonged at the upper end alike.
pub(crate) proof fn lemma_shaped_prolonged(
    t: Tree,
    inner: spec_fn(u64) -> Seq<u64>,
    outer: spec_fn(u64) -> Seq<u64>,
    before: Seq<u64>,
)
    requires
        tree_shaped(t, inner),
        forall|x: u64| halos(t).contains(x) ==> #[trigger] outer(x) == before + inner(x),
    ensures
        tree_shaped(t, outer),
    decreases t,
{
    assert forall|i: int| 0 <= i < t.branches.len() implies {
        &&& outer((#[trigger] t.branches[i]).id) == outer(t.id).push(t.branches[i].id)
        &&& tree_shaped(t.branches[i], outer)
    } by {
        let b = t.branches[i];
        assert(halos(b).contains(b.id)) by {
            assert(halos(b)[0] == b.id);
        }
        lemma_halos_of_branches(t, i, i, b.id);
        assert(before + inner(t.id).push(b.id) =~= (before + inner(t.id)).push(b.id));
        assert forall|x: u64| halos(b).contains(x) implies #[trigger] outer(x) == before + inner(
            x,
        ) by {
            lemma_halos_of_branches(t, i, i, x);
        }
        lemma_shaped_prolonged(b, inner, outer, before);
    }
}

/// In a tree in which no halo occurs twice every halo has one line of
/// descent.
pub proof fn lemma_once_shaped(t: Tree)
    requires
        once(t),
    ensures
        tree_shaped(t, lines_in(t)),
    decreases t,
{
    assert forall|i: int| 0 <= i < t.branches.len() implies {
        &&& lines_in(t)((#[trigger] t.branches[i]).id) == lines_in(t)(t.id).push(t.branches[i].id)
        &&& tree_shaped(t.branches[i], lines_in(t))
    } by {
        let b = t.branches[i];
        assert(halos(b).contains(b.id)) by {
            assert(halos(b)[0] == b.id);
        }
        lemma_halos_of_branches(t, i, i, b.id);
        lemma_line_through(t, i, b.id);
        assert(seq![t.id] + seq![b.id] =~= seq![t.id].push(b.id));
        lemma_once_shaped(b);
        assert forall|x: u64| halos(b).contains(x) implies #[trigger] lines_in(t)(x) == seq![t.id]
            + lines_in(b)(x) by {
            lemma_line_through(t, i, x);
        }
        lemma_shaped_prolonged(b, lines_in(b), lines_in(t), seq![t.id]);
    }
}

/// Reordering a tree in which no halo occurs twice.
///
/// Where the forest holds a tree below `id` and no halo occurs twice in
/// it, reordering succeeds and reports the depth that the tree reaches.
/// Afterwards the forest holds the ordered tree below `id`: every halo
/// of it has the progenitors it had, in a list that leads back to its
/// first member, and the first progenitor reaches at least as deep as
/// any other. No link of a halo outside the tree has changed.
pub proof fn lemma_reordered_once(f: Forest, id: u64, depth: nat, limit: nat)
    requires
        f.wf(),
        f.contains(id),
        tree_of(f, id, depth, limit) is Some,
        once(tree_of(f, id, depth, limit)->0),
    ensures
        reordered(f, id, depth, limit).depth == Some(
            reach(tree_of(f, id, depth, limit)->0, depth),
        ),
        tree_of(reordered(f, id, depth, limit).forest, id, depth, limit) == Some(
            ordered(tree_of(f, id, depth, limit)->0, depth),
        ),
        permuted(
            tree_of(f, id, depth, limit)->0,
            ordered(tree_of(f, id, depth, limit)->0, depth),
        ),
        deepest_first(ordered(tree_of(f, id, depth, limit)->0, depth), depth),
        forall|x: u64|
            f.contains(x) && !halos(tree_of(f, id, depth, limit)->0).contains(x) ==> {
                &&& #[trigger] reordered(f, id, depth, limit).forest.progenitor(x) == f.progenitor(
                    x,
                )
                &&& reordered(f, id, depth, limit).forest.next_progenitor(x) == f.next_progenitor(
                    x,
                )
            },
{
    let t = tree_of(f, id, depth, limit)->0;
    let after = reordered(f, id, depth, limit).forest;
    lemma_once_shaped(t);
    lemma_reordered_tree(f, lines_in(t), id, depth, limit);
    lemma_ordered_permuted(t, depth);
    lemma_ordered_deepest_first(t, depth);
    lemma_tree_of_id(f, id, depth, limit);
    assert forall|x: u64| f.contains(x) && !halos(t).contains(x) implies {
        &&& #[trigger] after.progenitor(x) == f.progenitor(x)
        &&& after.next_progenitor(x) == f.next_progenitor(x)
    } by {
        lemma_line_outside(t, x);
        assert(line(t, id) == seq![id]);
        assert(!under(lines_in(t), id, x));
    }
}

/// While the trees below the progenitors of a halo are reordered, the
/// progenitor list of the halo stays as it is: in a tree in which no
/// halo occurs twice, the list read beforehand is the list that a walk
/// finds after any number of its members have been dealt with.
pub proof fn lemma_list_stays(f: Forest, id: u64, depth: nat, limit: nat, upto: nat)
    requires
        f.wf(),
        f.contains(id),
        f.progenitor(id) != id,
        tree_of(f, id, depth, limit) is Some,
        once(tree_of(f, id, depth, limit)->0),
        siblings(f, id) is Some,
        upto <= siblings(f, id)->0.len(),
    ensures
        siblings(
            reordered_each(
                f,
                siblings(f, id)->0.take(upto as int),
                0,
                depth + 1,
                limit,
            ).forest,
            id,
        ) == siblings(f, id),
{
    let t = tree_of(f, id, depth, limit)->0;
    let s = siblings(f, id)->0;
    let lines = lines_in(t);
    let part = s.take(upto as int);
    let trees = t.branches.take(upto as int);
    lemma_once_shaped(t);
    lemma_tree_of_branches(f, id, depth, limit);
    lemma_siblings_are_chain(f, id);
    lemma_chain_contained(f, id, s);
    lemma_chain_no_duplicates(f, id, s);
    assert forall|j: int| 0 <= j < s.len() implies lines(#[trigger] s[j]) == lines(id).push(s[j]) by {
        assert(t.branches[j].id == ids(t.branches)[j]);
    }
    assert forall|j: int| 0 <= j < part.len() implies (#[trigger] tree_of(
        f,
        part[j],
        depth + 1,
        limit,
    )) == Some(trees[j]) by {
        assert(tree_of(f, s[j], depth + 1, limit) == Some(t.branches[j]));
    }
    assert forall|j: int| 0 <= j < part.len() implies tree_shaped(#[trigger] trees[j], lines) by {
        assert(tree_shaped(t.branches[j], lines));
    }
    lemma_reordered_each_tree(f, lines, id, part, 0, depth + 1, limit, trees);
    let out = reordered_each(f, part, 0, depth + 1, limit).forest;
    assert(apart_from(lines, part, 0, id)) by {
        assert forall|j: int| 0 <= j < part.len() implies !under(lines, #[trigger] part[j], id) by {
            lemma_child_under(lines, id, part[j]);
            lemma_under_self(lines, id);
        }
    }
    assert(out.progenitor(id) == f.progenitor(id));
    assert forall|m: int| 0 <= m < s.len() implies out.next_progenitor(#[trigger] s[m])
        == f.next_progenitor(s[m]) by {
        if m < upto {
            assert(part[m] == s[m]);
        } else {
            assert forall|j: int| 0 <= j < part.len() implies !under(
                lines,
                #[trigger] part[j],
                s[m],
            ) by {
                lemma_under_self(lines, s[m]);
                lemma_siblings_apart(lines, id, part[j], s[m], s[m]);
            }
            assert(apart_from(lines, part, 0, s[m]));
        }
    }
    lemma_chain_agrees(f, out, id, s);
}

/// A halo outside a tree has no line within it.
pub(crate) proof fn lemma_line_outside(t: Tree, x: u64)
    requires
        !halos(t).contains(x),
    ensures
        line(t, x) == Seq::<u64>::empty(),
{
    assert(halos(t)[0] == t.id);
    if exists|i: int| 0 <= i < t.branches.len() && halos(#[trigger] t.branches[i]).contains(x) {
        let i = choose|i: int|
            0 <= i < t.branches.len() && halos(#[trigger] t.branches[i]).contains(x);
        lemma_halos_of_branches(t, i, i, x);
    }
}

} // verus!
