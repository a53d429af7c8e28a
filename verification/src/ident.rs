//! The identifier codec: a halo identifier packs the snapshot number and
//! the one-based index of the halo within that snapshot into one `u64`.

use vstd::prelude::*;
use crate::error::TreeError;

verus! {

/// The multiplier that separates the snapshot part of an identifier from
/// its index part.
pub const SNAP_FACTOR: u64 = 1_000_000_000_000;

/// The snapshot that `id` names.
pub open spec fn snap_of(id: u64) -> nat {
    (id / SNAP_FACTOR) as nat
}

/// The zero-based index that `id` names; `-1` where the index part is zero.
pub open spec fn ind_of(id: u64) -> int {
    (id % SNAP_FACTOR) - 1
}

/// An identifier is well formed when its index part is not zero and the
/// index fits the machine's address width.
pub open spec fn id_well_formed(id: u64) -> bool {
    0 <= ind_of(id) <= usize::MAX
}

/// A pair can be encoded when the index leaves the snapshot part alone
/// and the identifier fits 64 bits.
pub open spec fn pair_encodable(snap: nat, ind: nat) -> bool {
    &&& ind + 1 < SNAP_FACTOR
    &&& snap * SNAP_FACTOR + ind + 1 <= u64::MAX
}

/// The identifier of the halo at `ind` in snapshot `snap`.
pub open spec fn id_of(snap: nat, ind: nat) -> int {
    snap * SNAP_FACTOR + ind + 1
}

/// The snapshot part of an identifier.
pub fn id_to_snap(id: u64) -> (snap: usize)
    ensures
        snap == snap_of(id),
{
    (id / SNAP_FACTOR) as usize
}

/// The index part of an identifier, turned zero-based.
pub fn id_to_ind(id: u64) -> (ind: usize)
    requires
        id_well_formed(id),
    ensures
        ind == ind_of(id),
{
    ((id % SNAP_FACTOR) - 1) as usize
}

/// Both parts of an identifier.
pub fn id_to_snap_ind(id: u64) -> (pair: (usize, usize))
    requires
        id_well_formed(id),
    ensures
        pair.0 == snap_of(id),
        pair.1 == ind_of(id),
{
    (id_to_snap(id), id_to_ind(id))
}

/// Splits an identifier, refusing one whose index part is zero.
pub fn decode(id: u64) -> (r: Result<(usize, usize), TreeError>)
    ensures
        id_well_formed(id) ==> r == Ok::<(usize, usize), TreeError>(
            (snap_of(id) as usize, ind_of(id) as usize),
        ),
        !id_well_formed(id) ==> r == Err::<(usize, usize), TreeError>(
            TreeError::InvalidIdentifier,
        ),
{
    let low: u64 = id % SNAP_FACTOR;
    if low == 0 || low - 1 > usize::MAX as u64 {
        Err(TreeError::InvalidIdentifier)
    } else {
        Ok(id_to_snap_ind(id))
    }
}

/// Packs a snapshot and an index into an identifier, refusing a pair that
/// no identifier stands for.
pub fn encode(snap: usize, ind: usize) -> (r: Result<u64, TreeError>)
    ensures
        pair_encodable(snap as nat, ind as nat) ==> r == Ok::<u64, TreeError>(
            id_of(snap as nat, ind as nat) as u64,
        ),
        !pair_encodable(snap as nat, ind as nat) ==> r == Err::<u64, TreeError>(
            TreeError::InvalidIdentifier,
        ),
{
    let max_snap: u64 = u64::MAX / SNAP_FACTOR;
    let last_ind: u64 = u64::MAX % SNAP_FACTOR;
    let s: u64 = snap as u64;
    let i: u64 = ind as u64;
    if i >= SNAP_FACTOR - 1 || s > max_snap || (s == max_snap && i + 1 > last_ind) {
        proof {
            if i < SNAP_FACTOR - 1 {
                assert(s * SNAP_FACTOR + i + 1 > u64::MAX) by (nonlinear_arith)
                    requires
                        s > max_snap || (s == max_snap && i + 1 > last_ind),
                        max_snap == u64::MAX / SNAP_FACTOR,
                        last_ind == u64::MAX % SNAP_FACTOR,
                        SNAP_FACTOR == 1_000_000_000_000,
                ;
            }
        }
        Err(TreeError::InvalidIdentifier)
    } else {
        assert(s * SNAP_FACTOR + i + 1 <= u64::MAX) by (nonlinear_arith)
            requires
                s < max_snap || (s == max_snap && i + 1 <= last_ind),
                i + 1 < SNAP_FACTOR,
                max_snap == u64::MAX / SNAP_FACTOR,
                last_ind == u64::MAX % SNAP_FACTOR,
                SNAP_FACTOR == 1_000_000_000_000,
        ;
        Ok(s * SNAP_FACTOR + i + 1)
    }
}

/// Decoding undoes encoding: the identifier of an encodable pair is well
/// formed and names that pair again.
pub proof fn lemma_decode_encode(snap: nat, ind: nat)
    requires
        pair_encodable(snap, ind),
        ind <= usize::MAX,
    ensures
        id_well_formed(id_of(snap, ind) as u64),
        snap_of(id_of(snap, ind) as u64) == snap,
        ind_of(id_of(snap, ind) as u64) == ind,
{
    let id = id_of(snap, ind);
    assert(id / (SNAP_FACTOR as int) == snap && id % (SNAP_FACTOR as int) == ind + 1)
        by (nonlinear_arith)
        requires
            id == snap * SNAP_FACTOR + ind + 1,
            0 <= ind + 1 < SNAP_FACTOR,
            SNAP_FACTOR == 1_000_000_000_000,
    ;
}

/// An identifier is its snapshot part times the factor plus its index part.
pub(crate) proof fn lemma_id_split(id: u64)
    ensures
        id == snap_of(id) * SNAP_FACTOR + ind_of(id) + 1,
{
    assert(id == (id / SNAP_FACTOR) * SNAP_FACTOR + id % SNAP_FACTOR) by (nonlinear_arith)
        requires
            SNAP_FACTOR == 1_000_000_000_000,
    ;
}

/// Encoding undoes decoding: a well-formed identifier is the identifier of
/// the pair it names, so no two pairs share an identifier.
pub proof fn lemma_encode_decode(id: u64)
    requires
        id_well_formed(id),
    ensures
        pair_encodable(snap_of(id), ind_of(id) as nat),
        id_of(snap_of(id), ind_of(id) as nat) == id,
{
    assert(id == (id / SNAP_FACTOR) * SNAP_FACTOR + id % SNAP_FACTOR) by (nonlinear_arith)
        requires
            SNAP_FACTOR == 1_000_000_000_000,
    ;
}

} // verus!
