use gen_tree_images::{decode, encode, id_to_ind, id_to_snap, id_to_snap_ind, TreeError};

#[test]
fn snapshot_is_the_quotient() {
    assert_eq!(id_to_snap(619_000_000_000_517), 619);
    assert_eq!(id_to_snap(1), 0);
    assert_eq!(id_to_snap(999_999_999_999), 0);
    assert_eq!(id_to_snap(1_000_000_000_001), 1);
}

#[test]
fn index_is_the_remainder_less_one() {
    assert_eq!(id_to_ind(619_000_000_000_517), 516);
    assert_eq!(id_to_ind(1), 0);
    assert_eq!(id_to_ind(7_000_000_000_001), 0);
}

#[test]
fn both_parts_at_once() {
    assert_eq!(id_to_snap_ind(619_000_000_000_517), (619, 516));
    assert_eq!(id_to_snap_ind(3_000_000_000_042), (3, 41));
}

#[test]
fn decode_splits_a_well_formed_identifier() {
    assert_eq!(decode(619_000_000_000_517), Ok((619, 516)));
    assert_eq!(decode(1), Ok((0, 0)));
    assert_eq!(decode(u64::MAX), Ok((18_446_744, 73_709_551_614)));
}

#[test]
fn decode_refuses_a_zero_index_part() {
    assert_eq!(decode(0), Err(TreeError::InvalidIdentifier));
    assert_eq!(decode(5_000_000_000_000), Err(TreeError::InvalidIdentifier));
}

#[test]
fn encode_packs_a_pair() {
    assert_eq!(encode(619, 516), Ok(619_000_000_000_517));
    assert_eq!(encode(0, 0), Ok(1));
    assert_eq!(encode(18_446_744, 73_709_551_614), Ok(u64::MAX));
}

#[test]
fn encode_refuses_what_no_identifier_names() {
    assert_eq!(encode(0, 999_999_999_999), Err(TreeError::InvalidIdentifier));
    assert_eq!(encode(18_446_745, 0), Err(TreeError::InvalidIdentifier));
    assert_eq!(encode(18_446_744, 73_709_551_615), Err(TreeError::InvalidIdentifier));
}

#[test]
fn decode_undoes_encode() {
    let pairs: Vec<(usize, usize)> = vec![
        (0, 0),
        (0, 999_999_999_998),
        (1, 0),
        (42, 7),
        (619, 516),
        (18_446_744, 0),
        (18_446_744, 73_709_551_614),
    ];
    for (snap, ind) in pairs {
        let id = encode(snap, ind).unwrap();
        assert_eq!(decode(id), Ok((snap, ind)));
    }
}

#[test]
fn encode_undoes_decode() {
    let ids: Vec<u64> = vec![1, 2, 999_999_999_999, 1_000_000_000_001, 619_000_000_000_517, u64::MAX];
    for id in ids {
        let (snap, ind) = decode(id).unwrap();
        assert_eq!(encode(snap, ind), Ok(id));
    }
}
