//! The forest store: per snapshot, the first-progenitor link, the
//! next-progenitor link and the type of every halo.

use vstd::prelude::*;
use crate::column::{
    ids_from_vec, ids_get, ids_len, ids_set, types_from_vec, types_get, types_len, IdColumn,
    TypeColumn,
};
use crate::error::TreeError;
use crate::ident::{decode, id_to_snap_ind, id_well_formed, ind_of, snap_of};

verus! {

/// The most snapshots a store can hold: one for every snapshot number
/// that fits into an identifier.
pub const MAX_SNAPSHOTS: usize = 18_446_745;

/// The mathematical content of a store: one sequence per snapshot and
/// column.
pub struct Forest {
    pub progenitors: Seq<Seq<u64>>,
    pub next_progenitors: Seq<Seq<u64>>,
    pub types: Seq<Seq<i8>>,
}

impl Forest {
    /// The number of snapshots.
    pub open spec fn snapshot_count(self) -> nat {
        self.progenitors.len()
    }

    /// The three columns have the same shape.
    pub open spec fn aligned(self) -> bool {
        &&& self.next_progenitors.len() == self.progenitors.len()
        &&& self.types.len() == self.progenitors.len()
        &&& forall|s: int|
            0 <= s < self.progenitors.len() ==> (#[trigger] self.next_progenitors[s]).len()
                == self.progenitors[s].len()
        &&& forall|s: int|
            0 <= s < self.progenitors.len() ==> (#[trigger] self.types[s]).len()
                == self.progenitors[s].len()
    }

    /// `id` addresses a halo of this forest.
    pub open spec fn contains(self, id: u64) -> bool {
        &&& id_well_formed(id)
        &&& snap_of(id) < self.progenitors.len()
        &&& ind_of(id) < self.progenitors[snap_of(id) as int].len()
    }

    /// The first progenitor of `id`; `id` itself where it has none.
    pub open spec fn progenitor(self, id: u64) -> u64 {
        self.progenitors[snap_of(id) as int][ind_of(id)]
    }

    /// The sibling that follows `id` in its descendant's progenitor list.
    pub open spec fn next_progenitor(self, id: u64) -> u64 {
        self.next_progenitors[snap_of(id) as int][ind_of(id)]
    }

    /// The type of `id`.
    pub open spec fn halo_type(self, id: u64) -> i8 {
        self.types[snap_of(id) as int][ind_of(id)]
    }

    /// Every link of the halo at `ind` in snapshot `snap` addresses a halo.
    pub open spec fn links_closed_at(self, snap: int, ind: int) -> bool {
        &&& self.contains(self.progenitors[snap][ind])
        &&& self.contains(self.next_progenitors[snap][ind])
    }

    /// The store is well formed: the columns are aligned, every snapshot
    /// can be named by an identifier, and every link addresses a halo.
    pub open spec fn wf(self) -> bool {
        &&& self.aligned()
        &&& self.snapshot_count() <= MAX_SNAPSHOTS
        &&& forall|snap: int, ind: int|
            0 <= snap < self.progenitors.len() && 0 <= ind < self.progenitors[snap].len()
                ==> #[trigger] self.links_closed_at(snap, ind)
    }

    /// The forest with the first progenitor of `id` replaced by `to`.
    pub open spec fn with_progenitor(self, id: u64, to: u64) -> Forest {
        Forest {
            progenitors: self.progenitors.update(
                snap_of(id) as int,
                self.progenitors[snap_of(id) as int].update(ind_of(id), to),
            ),
            ..self
        }
    }

    /// The forest with the next progenitor of `id` replaced by `to`.
    pub open spec fn with_next_progenitor(self, id: u64, to: u64) -> Forest {
        Forest {
            next_progenitors: self.next_progenitors.update(
                snap_of(id) as int,
                self.next_progenitors[snap_of(id) as int].update(ind_of(id), to),
            ),
            ..self
        }
    }

    /// Two forests have the same halos and the same types: they differ in
    /// links only.
    pub open spec fn same_halos(self, other: Forest) -> bool {
        &&& self.types == other.types
        &&& self.progenitors.len() == other.progenitors.len()
        &&& forall|s: int|
            0 <= s < self.progenitors.len() ==> (#[trigger] self.progenitors[s]).len()
                == other.progenitors[s].len()
    }

    /// In a well-formed forest the links of a halo address halos.
    pub proof fn lemma_links_contained(self, id: u64)
        requires
            self.wf(),
            self.contains(id),
        ensures
            self.contains(self.progenitor(id)),
            self.contains(self.next_progenitor(id)),
    {
        assert(self.links_closed_at(snap_of(id) as int, ind_of(id)));
    }

    /// Pointing a first-progenitor link at a halo keeps the forest well
    /// formed and changes nothing but that link.
    pub proof fn lemma_with_progenitor(self, id: u64, to: u64)
        requires
            self.wf(),
            self.contains(id),
            self.contains(to),
        ensures
            self.with_progenitor(id, to).wf(),
            self.with_progenitor(id, to).same_halos(self),
            self.with_progenitor(id, to).progenitor(id) == to,
            self.with_progenitor(id, to).next_progenitors == self.next_progenitors,
            forall|x: u64|
                self.contains(x) && x != id ==> self.with_progenitor(id, to).progenitor(x)
                    == self.progenitor(x),
            forall|x: u64| self.with_progenitor(id, to).contains(x) == self.contains(x),
    {
        let g = self.with_progenitor(id, to);
        assert forall|x: u64| g.contains(x) == self.contains(x) by {}
        assert forall|snap: int, ind: int|
            0 <= snap < g.progenitors.len() && 0 <= ind < g.progenitors[snap].len()
                implies #[trigger] g.links_closed_at(snap, ind) by {
            assert(self.links_closed_at(snap, ind));
        }
        assert forall|x: u64| self.contains(x) && x != id implies g.progenitor(x)
            == self.progenitor(x) by {
            lemma_id_parts_differ(x, id);
        }
    }

    /// Pointing a next-progenitor link at a halo keeps the forest well
    /// formed and changes nothing but that link.
    pub proof fn lemma_with_next_progenitor(self, id: u64, to: u64)
        requires
            self.wf(),
            self.contains(id),
            self.contains(to),
        ensures
            self.with_next_progenitor(id, to).wf(),
            self.with_next_progenitor(id, to).same_halos(self),
            self.with_next_progenitor(id, to).next_progenitor(id) == to,
            self.with_next_progenitor(id, to).progenitors == self.progenitors,
            forall|x: u64|
                self.contains(x) && x != id ==> self.with_next_progenitor(id, to).next_progenitor(
                    x,
                ) == self.next_progenitor(x),
            forall|x: u64| self.with_next_progenitor(id, to).contains(x) == self.contains(x),
    {
        let g = self.with_next_progenitor(id, to);
        assert forall|x: u64| g.contains(x) == self.contains(x) by {}
        assert forall|snap: int, ind: int|
            0 <= snap < g.progenitors.len() && 0 <= ind < g.progenitors[snap].len()
                implies #[trigger] g.links_closed_at(snap, ind) by {
            assert(self.links_closed_at(snap, ind));
        }
        assert forall|x: u64| self.contains(x) && x != id implies g.next_progenitor(x)
            == self.next_progenitor(x) by {
            lemma_id_parts_differ(x, id);
        }
    }
}

/// Two different well-formed identifiers differ in their snapshot or in
/// their index.
pub(crate) proof fn lemma_id_parts_differ(a: u64, b: u64)
    requires
        a != b,
    ensures
        snap_of(a) != snap_of(b) || ind_of(a) != ind_of(b),
{
    crate::ident::lemma_id_split(a);
    crate::ident::lemma_id_split(b);
}

/// The forest store.
#[derive(Debug)]
pub struct HaloProps {
    progenitors: Vec<IdColumn>,
    next_progenitors: Vec<IdColumn>,
    types: Vec<TypeColumn>,
}

impl View for HaloProps {
    type V = Forest;

    closed spec fn view(&self) -> Forest {
        Forest {
            progenitors: Seq::new(self.progenitors@.len(), |s: int| self.progenitors@[s]@),
            next_progenitors: Seq::new(
                self.next_progenitors@.len(),
                |s: int| self.next_progenitors@[s]@,
            ),
            types: Seq::new(self.types@.len(), |s: int| self.types@[s]@),
        }
    }
}

impl HaloProps {
    /// An empty store with room for `size` snapshots.
    pub fn new(size: usize) -> (store: HaloProps)
        ensures
            store@.progenitors == Seq::<Seq<u64>>::empty(),
            store@.next_progenitors == Seq::<Seq<u64>>::empty(),
            store@.types == Seq::<Seq<i8>>::empty(),
            store@.wf(),
    {
        HaloProps {
            progenitors: Vec::with_capacity(size),
            next_progenitors: Vec::with_capacity(size),
            types: Vec::with_capacity(size),
        }
    }

    /// Appends one snapshot. The three columns must have one length;
    /// otherwise the store stays as it was.
    pub fn push_snapshot(
        &mut self,
        progenitors: Vec<u64>,
        next_progenitors: Vec<u64>,
        types: Vec<i8>,
    ) -> (r: Result<(), TreeError>)
        ensures
            progenitors.len() == next_progenitors.len() && progenitors.len() == types.len() ==> {
                &&& r == Ok::<(), TreeError>(())
                &&& final(self)@.progenitors == old(self)@.progenitors.push(progenitors@)
                &&& final(self)@.next_progenitors == old(self)@.next_progenitors.push(
                    next_progenitors@,
                )
                &&& final(self)@.types == old(self)@.types.push(types@)
            },
            !(progenitors.len() == next_progenitors.len() && progenitors.len() == types.len())
                ==> {
                &&& r == Err::<(), TreeError>(TreeError::ArrayShapeMismatch)
                &&& final(self)@ == old(self)@
            },
    {
        if progenitors.len() != next_progenitors.len() || progenitors.len() != types.len() {
            return Err(TreeError::ArrayShapeMismatch);
        }
        self.progenitors.push(ids_from_vec(progenitors));
        self.next_progenitors.push(ids_from_vec(next_progenitors));
        self.types.push(types_from_vec(types));
        Ok(())
    }

    /// The number of snapshots.
    pub fn snapshot_count(&self) -> (n: usize)
        ensures
            n == self@.snapshot_count(),
    {
        self.progenitors.len()
    }

    /// Whether `id` addresses a halo of the store.
    pub fn contains(&self, id: u64) -> (b: bool)
        ensures
            b == self@.contains(id),
    {
        match decode(id) {
            Err(_) => false,
            Ok((snap, ind)) => snap < self.progenitors.len() && ind < ids_len(
                &self.progenitors[snap],
            ),
        }
    }

    /// Whether the columns of the store are aligned.
    fn is_aligned(&self) -> (b: bool)
        ensures
            b == self@.aligned(),
    {
        let n: usize = self.progenitors.len();
        if self.next_progenitors.len() != n || self.types.len() != n {
            return false;
        }
        let mut s: usize = 0;
        while s < n
            invariant
                s <= n,
                n == self.progenitors@.len(),
                n == self.next_progenitors@.len(),
                n == self.types@.len(),
                forall|t: int|
                    0 <= t < s ==> (#[trigger] self@.next_progenitors[t]).len()
                        == self@.progenitors[t].len(),
                forall|t: int|
                    0 <= t < s ==> (#[trigger] self@.types[t]).len() == self@.progenitors[t].len(),
            decreases n - s,
        {
            let len: usize = ids_len(&self.progenitors[s]);
            if ids_len(&self.next_progenitors[s]) != len || types_len(&self.types[s]) != len {
                assert(self@.next_progenitors[s as int].len() != self@.progenitors[s as int].len()
                    || self@.types[s as int].len() != self@.progenitors[s as int].len());
                return false;
            }
            s += 1;
        }
        true
    }

    /// Whether the store is well formed. Links are checked here, once;
    /// the operations on trees rely on it.
    pub fn is_well_formed(&self) -> (b: bool)
        ensures
            b == self@.wf(),
    {
        let n: usize = self.progenitors.len();
        if n > MAX_SNAPSHOTS || !self.is_aligned() {
            return false;
        }
        let mut s: usize = 0;
        while s < n
            invariant
                s <= n,
                n == self@.progenitors.len(),
                self@.aligned(),
                forall|snap: int, ind: int|
                    0 <= snap < s && 0 <= ind < self@.progenitors[snap].len()
                        ==> #[trigger] self@.links_closed_at(snap, ind),
            decreases n - s,
        {
            let len: usize = ids_len(&self.progenitors[s]);
            let mut i: usize = 0;
            while i < len
                invariant
                    i <= len,
                    s < n,
                    n == self@.progenitors.len(),
                    len == self@.progenitors[s as int].len(),
                    self@.aligned(),
                    forall|snap: int, ind: int|
                        0 <= snap < s && 0 <= ind < self@.progenitors[snap].len()
                            ==> #[trigger] self@.links_closed_at(snap, ind),
                    forall|ind: int|
                        0 <= ind < i ==> #[trigger] self@.links_closed_at(s as int, ind),
                decreases len - i,
            {
                assert(self@.next_progenitors[s as int].len() == len);
                let p: u64 = ids_get(&self.progenitors[s], i);
                let q: u64 = ids_get(&self.next_progenitors[s], i);
                if !self.contains(p) || !self.contains(q) {
                    assert(!self@.links_closed_at(s as int, i as int));
                    return false;
                }
                i += 1;
            }
            s += 1;
        }
        true
    }

    /// The first progenitor of `id`; `id` itself where it has none.
    pub fn progenitor(&self, id: u64) -> (p: u64)
        requires
            self@.contains(id),
        ensures
            p == self@.progenitor(id),
    {
        let (snap, ind) = id_to_snap_ind(id);
        ids_get(&self.progenitors[snap], ind)
    }

    /// The sibling that follows `id` in its descendant's progenitor list.
    pub fn next_progenitor(&self, id: u64) -> (p: u64)
        requires
            self@.aligned(),
            self@.contains(id),
        ensures
            p == self@.next_progenitor(id),
    {
        let (snap, ind) = id_to_snap_ind(id);
        assert(self@.next_progenitors[snap as int].len() == self@.progenitors[snap as int].len());
        ids_get(&self.next_progenitors[snap], ind)
    }

    /// The type of `id`.
    pub fn halo_type(&self, id: u64) -> (t: i8)
        requires
            self@.aligned(),
            self@.contains(id),
        ensures
            t == self@.halo_type(id),
    {
        let (snap, ind) = id_to_snap_ind(id);
        assert(self@.types[snap as int].len() == self@.progenitors[snap as int].len());
        types_get(&self.types[snap], ind)
    }

    /// Replaces the first progenitor of `id`.
    pub fn set_progenitor(&mut self, id: u64, to: u64)
        requires
            old(self)@.contains(id),
        ensures
            final(self)@ == old(self)@.with_progenitor(id, to),
    {
        let (snap, ind) = id_to_snap_ind(id);
        ids_set(&mut self.progenitors[snap], ind, to);
        assert(self@.progenitors =~= old(self)@.with_progenitor(id, to).progenitors);
    }

    /// Replaces the next progenitor of `id`.
    pub fn set_next_progenitor(&mut self, id: u64, to: u64)
        requires
            old(self)@.aligned(),
            old(self)@.contains(id),
        ensures
            final(self)@ == old(self)@.with_next_progenitor(id, to),
    {
        let (snap, ind) = id_to_snap_ind(id);
        assert(self@.next_progenitors[snap as int].len() == self@.progenitors[snap as int].len());
        ids_set(&mut self.next_progenitors[snap], ind, to);
        assert(self@.next_progenitors =~= old(self)@.with_next_progenitor(id, to).next_progenitors);
    }
}

/// The type of a halo with the host `host`: 0 for a halo without host,
/// which the input marks by -1, and 1 for a halo that has one.
pub open spec fn type_of_host(host: i64) -> i8 {
    if host != -1 {
        1
    } else {
        0
    }
}

/// The types of the halos of one snapshot, from their hosts.
pub fn halo_types(hosts: &Vec<i64>) -> (types: Vec<i8>)
    ensures
        types@.len() == hosts@.len(),
        forall|i: int| 0 <= i < hosts@.len() ==> #[trigger] types@[i] == type_of_host(hosts@[i]),
{
    let n: usize = hosts.len();
    let mut types: Vec<i8> = Vec::with_capacity(n);
    let mut i: usize = 0;
    while i < n
        invariant
            i <= n,
            n == hosts@.len(),
            types@.len() == i,
            forall|j: int| 0 <= j < i ==> #[trigger] types@[j] == type_of_host(hosts@[j]),
        decreases n - i,
    {
        let t: i8 = if hosts[i] != -1 {
            1
        } else {
            0
        };
        types.push(t);
        i += 1;
    }
    types
}

} // verus!
