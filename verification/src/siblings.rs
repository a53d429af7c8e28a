//! Sibling lists: the progenitors of one halo, chained through the
//! next-progenitor links from the first progenitor round to it again.

use vstd::prelude::*;
use crate::error::TreeError;
use crate::forest::{Forest, HaloProps};

verus! {

/// The most siblings that may follow a first progenitor. A walk that
/// meets more has not closed and the forest counts as corrupt.
pub const MAX_SIBLINGS: usize = 5000;

/// The siblings met from `cur` on, until the walk comes to `first` or to
/// the descendant `n`; `None` where it takes more than `room` steps.
pub open spec fn siblings_from(f: Forest, n: u64, first: u64, cur: u64, room: nat) -> Option<
    Seq<u64>,
>
    decreases room,
{
    if cur == first || cur == n {
        Some(Seq::empty())
    } else if room == 0 {
        None
    } else {
        match siblings_from(f, n, first, f.next_progenitor(cur), (room - 1) as nat) {
            Some(rest) => Some(seq![cur] + rest),
            None => None,
        }
    }
}

/// The progenitors of `n` in list order, the first progenitor first;
/// `None` where the list does not close within the cap.
pub open spec fn siblings(f: Forest, n: u64) -> Option<Seq<u64>> {
    let first = f.progenitor(n);
    match siblings_from(f, n, first, f.next_progenitor(first), MAX_SIBLINGS as nat) {
        Some(rest) => Some(seq![first] + rest),
        None => None,
    }
}

/// `s` is the progenitor list of `n`: it starts at the first progenitor,
/// each member links to the next, none but the first is the first
/// progenitor or `n`, and the last links back to the first progenitor or
/// to `n`.
pub open spec fn is_sibling_chain(f: Forest, n: u64, s: Seq<u64>) -> bool {
    &&& 1 <= s.len() <= MAX_SIBLINGS + 1
    &&& s[0] == f.progenitor(n)
    &&& forall|i: int| 0 <= i < s.len() - 1 ==> f.next_progenitor(#[trigger] s[i]) == s[i + 1]
    &&& forall|i: int| 1 <= i < s.len() ==> #[trigger] s[i] != s[0] && s[i] != n
    &&& (f.next_progenitor(s.last()) == s[0] || f.next_progenitor(s.last()) == n)
}

/// Every member of `s` addresses a halo of `f`.
pub open spec fn all_contained(f: Forest, s: Seq<u64>) -> bool {
    forall|i: int| 0 <= i < s.len() ==> f.contains(#[trigger] s[i])
}

proof fn lemma_siblings_from_chain(f: Forest, n: u64, first: u64, cur: u64, room: nat)
    requires
        siblings_from(f, n, first, cur, room) is Some,
    ensures
        ({
            let s = siblings_from(f, n, first, cur, room)->0;
            &&& s.len() <= room
            &&& s.len() > 0 ==> s[0] == cur
            &&& s.len() == 0 ==> cur == first || cur == n
            &&& forall|i: int| 0 <= i < s.len() - 1 ==> f.next_progenitor(#[trigger] s[i]) == s[i + 1]
            &&& forall|i: int| 0 <= i < s.len() ==> #[trigger] s[i] != first && s[i] != n
            &&& s.len() > 0 ==> (f.next_progenitor(s.last()) == first || f.next_progenitor(
                s.last(),
            ) == n)
        }),
    decreases room,
{
    if cur == first || cur == n {
    } else {
        let next = f.next_progenitor(cur);
        lemma_siblings_from_chain(f, n, first, next, (room - 1) as nat);
        let rest = siblings_from(f, n, first, next, (room - 1) as nat)->0;
        let s = seq![cur] + rest;
        assert(siblings_from(f, n, first, cur, room) == Some(s));
        assert forall|i: int| 0 <= i < s.len() - 1 implies f.next_progenitor(#[trigger] s[i])
            == s[i + 1] by {
            if i > 0 {
                assert(s[i] == rest[i - 1]);
                assert(s[i + 1] == rest[i]);
            } else {
                assert(s[1] == rest[0]);
            }
        }
        assert forall|i: int| 0 <= i < s.len() implies #[trigger] s[i] != first && s[i] != n by {
            if i > 0 {
                assert(s[i] == rest[i - 1]);
            }
        }
        if rest.len() > 0 {
            assert(s.last() == rest.last());
        }
    }
}

proof fn lemma_chain_siblings_from(f: Forest, n: u64, first: u64, s: Seq<u64>, k: int, room: nat)
    requires
        0 <= k <= s.len(),
        s.len() - k <= room,
        forall|i: int| 0 <= i < s.len() - 1 ==> f.next_progenitor(#[trigger] s[i]) == s[i + 1],
        forall|i: int| k <= i < s.len() ==> #[trigger] s[i] != first && s[i] != n,
        s.len() > 0,
        f.next_progenitor(s.last()) == first || f.next_progenitor(s.last()) == n,
    ensures
        siblings_from(
            f,
            n,
            first,
            if k < s.len() {
                s[k]
            } else {
                f.next_progenitor(s.last())
            },
            room,
        ) == Some(s.subrange(k, s.len() as int)),
    decreases s.len() - k,
{
    if k == s.len() {
        assert(s.subrange(k, s.len() as int) =~= Seq::<u64>::empty());
    } else {
        lemma_chain_siblings_from(f, n, first, s, k + 1, (room - 1) as nat);
        assert(f.next_progenitor(s[k]) == if k + 1 < s.len() {
            s[k + 1]
        } else {
            f.next_progenitor(s.last())
        });
        assert(seq![s[k]] + s.subrange(k + 1, s.len() as int) =~= s.subrange(k, s.len() as int));
    }
}

/// The progenitor list, where there is one, is a sibling chain.
pub proof fn lemma_siblings_are_chain(f: Forest, n: u64)
    requires
        siblings(f, n) is Some,
    ensures
        is_sibling_chain(f, n, siblings(f, n)->0),
{
    let first = f.progenitor(n);
    let start = f.next_progenitor(first);
    lemma_siblings_from_chain(f, n, first, start, MAX_SIBLINGS as nat);
    let rest = siblings_from(f, n, first, start, MAX_SIBLINGS as nat)->0;
    let s = seq![first] + rest;
    assert(siblings(f, n) == Some(s));
    assert forall|i: int| 0 <= i < s.len() - 1 implies f.next_progenitor(#[trigger] s[i]) == s[i
        + 1] by {
        if i > 0 {
            assert(s[i] == rest[i - 1]);
            assert(s[i + 1] == rest[i]);
        } else {
            assert(s[1] == rest[0]);
        }
    }
    assert forall|i: int| 1 <= i < s.len() implies #[trigger] s[i] != s[0] && s[i] != n by {
        assert(s[i] == rest[i - 1]);
    }
    if rest.len() > 0 {
        assert(s.last() == rest.last());
    }
}

/// A sibling chain of `n` is the progenitor list of `n`: the list is
/// determined by the links.
pub proof fn lemma_chain_is_siblings(f: Forest, n: u64, s: Seq<u64>)
    requires
        is_sibling_chain(f, n, s),
    ensures
        siblings(f, n) == Some(s),
{
    let first = f.progenitor(n);
    lemma_chain_siblings_from(f, n, first, s, 1, MAX_SIBLINGS as nat);
    assert(f.next_progenitor(first) == if 1 < s.len() {
        s[1]
    } else {
        f.next_progenitor(s.last())
    });
    assert(seq![first] + s.subrange(1, s.len() as int) =~= s);
}

/// Two members of a sibling chain at a distance keep that distance apart
/// along the chain: a repetition would carry on to the end.
proof fn lemma_chain_repeats(f: Forest, n: u64, s: Seq<u64>, i: int, j: int, m: int)
    requires
        is_sibling_chain(f, n, s),
        1 <= i < j < s.len(),
        s[i] == s[j],
        0 <= m < s.len() - j,
    ensures
        s[i + m] == s[j + m],
    decreases m,
{
    if m > 0 {
        lemma_chain_repeats(f, n, s, i, j, m - 1);
        assert(f.next_progenitor(s[i + m - 1]) == s[i + m]);
        assert(f.next_progenitor(s[j + m - 1]) == s[j + m]);
    }
}

/// No halo occurs twice in a sibling chain.
pub proof fn lemma_chain_no_duplicates(f: Forest, n: u64, s: Seq<u64>)
    requires
        is_sibling_chain(f, n, s),
    ensures
        s.no_duplicates(),
{
    assert forall|i: int, j: int| 0 <= i < s.len() && 0 <= j < s.len() && i != j implies s[i]
        != s[j] by {
        let (a, b) = if i < j {
            (i, j)
        } else {
            (j, i)
        };
        if s[a] == s[b] {
            assert(s[b] != s[0]);
            assert(a >= 1);
            let m = s.len() - 1 - b;
            lemma_chain_repeats(f, n, s, a, b, m);
            assert(s[a + m] == s.last());
            assert(f.next_progenitor(s[a + m]) == s[a + m + 1]);
            assert(s[a + m + 1] != s[0] && s[a + m + 1] != n);
        }
    }
}

/// In a well-formed forest the members of the sibling chain of a halo
/// address halos.
pub proof fn lemma_chain_contained(f: Forest, n: u64, s: Seq<u64>)
    requires
        f.wf(),
        f.contains(n),
        is_sibling_chain(f, n, s),
    ensures
        all_contained(f, s),
{
    assert forall|i: int| 0 <= i < s.len() implies f.contains(#[trigger] s[i]) by {
        lemma_chain_member_contained(f, n, s, i);
    }
}

proof fn lemma_chain_member_contained(f: Forest, n: u64, s: Seq<u64>, i: int)
    requires
        f.wf(),
        f.contains(n),
        is_sibling_chain(f, n, s),
        0 <= i < s.len(),
    ensures
        f.contains(s[i]),
    decreases i,
{
    if i == 0 {
        f.lemma_links_contained(n);
    } else {
        lemma_chain_member_contained(f, n, s, i - 1);
        f.lemma_links_contained(s[i - 1]);
        assert(f.next_progenitor(s[i - 1]) == s[i]);
    }
}

/// Walks the progenitor list of `id` and returns its members in order,
/// the first progenitor first.
pub fn collect_siblings(id: u64, halo_props: &HaloProps) -> (r: Result<Vec<u64>, TreeError>)
    requires
        halo_props@.wf(),
        halo_props@.contains(id),
    ensures
        match siblings(halo_props@, id) {
            Some(s) => r is Ok && r->Ok_0@ == s,
            None => r == Err::<Vec<u64>, TreeError>(TreeError::CorruptForestError),
        },
{
    let ghost f = halo_props@;
    let first: u64 = halo_props.progenitor(id);
    proof {
        f.lemma_links_contained(id);
        f.lemma_links_contained(first);
    }
    let mut out: Vec<u64> = Vec::new();
    out.push(first);
    let mut cur: u64 = halo_props.next_progenitor(first);
    let mut room: usize = MAX_SIBLINGS;
    while cur != first && cur != id
        invariant
            f == halo_props@,
            f.wf(),
            f.contains(cur),
            first == f.progenitor(id),
            room <= MAX_SIBLINGS,
            siblings(f, id) == match siblings_from(f, id, first, cur, room as nat) {
                Some(rest) => Some(out@ + rest),
                None => None,
            },
        decreases room,
    {
        if room == 0 {
            return Err(TreeError::CorruptForestError);
        }
        let ghost before = out@;
        out.push(cur);
        proof {
            f.lemma_links_contained(cur);
            let next = f.next_progenitor(cur);
            match siblings_from(f, id, first, next, (room - 1) as nat) {
                Some(rest) => {
                    assert(before + (seq![cur] + rest) =~= out@ + rest);
                },
                None => {},
            }
        }
        cur = halo_props.next_progenitor(cur);
        room -= 1;
    }
    proof {
        assert(out@ + Seq::<u64>::empty() =~= out@);
    }
    Ok(out)
}

} // verus!
