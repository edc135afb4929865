use dynamic_accounts::{
    initialize, reconcile, same_key, update, DynError, DynamicState, KeyElement, Slot, KEY_SIZE,
};

fn key(b: u8) -> KeyElement {
    let mut id = [0u8; 32];
    for (i, x) in id.iter_mut().enumerate() {
        *x = b.wrapping_add(i as u8);
    }
    KeyElement { id }
}

fn rent(n: usize) -> u64 {
    890_880 + 6_960 * n as u64
}

fn encoded(keys: &[KeyElement]) -> Vec<u8> {
    let mut out = (keys.len() as u32).to_le_bytes().to_vec();
    for k in keys {
        out.extend_from_slice(&k.id);
    }
    out
}

fn slot_with(keys: &[KeyElement], lamports: u64) -> Slot {
    Slot { data: encoded(keys), lamports, max_len: 10_240 }
}

#[test]
fn to_bytes_lays_out_count_then_keys() {
    let state = DynamicState { keys: vec![key(1), key(200)] };
    let bytes = state.to_bytes();
    assert_eq!(bytes.len(), 4 + 2 * KEY_SIZE);
    assert_eq!(&bytes[..4], &[2, 0, 0, 0]);
    assert_eq!(&bytes[4..36], &key(1).id);
    assert_eq!(&bytes[36..], &key(200).id);
}

#[test]
fn unpack_reads_keys_in_order() {
    let buf = encoded(&[key(7), key(9), key(7)]);
    let state = DynamicState::unpack(&buf).unwrap();
    assert_eq!(state.keys, vec![key(7), key(9), key(7)]);
}

#[test]
fn round_trip_keeps_record() {
    for n in [0usize, 1, 2, 5, 40] {
        let keys: Vec<KeyElement> = (0..n).map(|i| key(i as u8 * 3)).collect();
        let state = DynamicState { keys: keys.clone() };
        let back = DynamicState::unpack(&state.to_bytes()).unwrap();
        assert_eq!(back.keys, keys);
    }
}

#[test]
fn unpack_reads_multi_byte_count() {
    let keys: Vec<KeyElement> = (0..300).map(|i| key(i as u8)).collect();
    let buf = encoded(&keys);
    assert_eq!(&buf[..4], &[44, 1, 0, 0]);
    assert_eq!(DynamicState::unpack(&buf).unwrap().keys, keys);
}

#[test]
fn unpack_rejects_inconsistent_length() {
    assert_eq!(DynamicState::unpack(&[]).unwrap_err(), DynError::CorruptLayout);
    assert_eq!(DynamicState::unpack(&[0, 0, 0]).unwrap_err(), DynError::CorruptLayout);
    let mut buf = encoded(&[key(1), key(2)]);
    buf.pop();
    assert_eq!(DynamicState::unpack(&buf).unwrap_err(), DynError::CorruptLayout);
    let mut buf = encoded(&[key(1)]);
    buf.push(0);
    assert_eq!(DynamicState::unpack(&buf).unwrap_err(), DynError::CorruptLayout);
    let mut buf = encoded(&[key(1)]);
    buf[0] = 2;
    assert_eq!(DynamicState::unpack(&buf).unwrap_err(), DynError::CorruptLayout);
    assert_eq!(DynamicState::unpack(&[0, 0, 0, 0]).unwrap().keys.len(), 0);
}

#[test]
fn initialize_writes_zero_count() {
    let mut slot = Slot { data: vec![9, 9, 9, 9], lamports: rent(4), max_len: 100 };
    assert_eq!(initialize(&mut slot), Ok(()));
    assert_eq!(slot.data, vec![0, 0, 0, 0]);
    assert_eq!(slot.lamports, rent(4));
}

#[test]
fn initialize_rejects_wrong_length() {
    let mut slot = Slot { data: vec![1, 2, 3], lamports: 5, max_len: 100 };
    assert_eq!(initialize(&mut slot), Err(DynError::CorruptLayout));
    assert_eq!(slot.data, vec![1, 2, 3]);
}

#[test]
fn pack_rejects_slot_of_other_length() {
    let state = DynamicState { keys: vec![key(1)] };
    let mut slot = Slot { data: vec![0, 0, 0, 0], lamports: 5, max_len: 100 };
    assert_eq!(state.pack(&mut slot), Err(DynError::CorruptLayout));
    assert_eq!(slot.data, vec![0, 0, 0, 0]);
    let mut slot = Slot { data: vec![0; 36], lamports: 5, max_len: 100 };
    assert_eq!(state.pack(&mut slot), Ok(()));
    assert_eq!(slot.data, encoded(&[key(1)]));
}

#[test]
fn grow_from_empty_charges_payer() {
    let keys: Vec<KeyElement> = (0..3).map(|i| key(i * 50)).collect();
    let state = DynamicState { keys: keys.clone() };
    let mut slot = slot_with(&[], rent(4));
    let mut payer: u64 = 10_000_000;
    let required = rent(3 * KEY_SIZE);
    assert_eq!(reconcile(&state, &mut slot, &mut payer, required), Ok(()));
    assert_eq!(slot.data.len(), 4 + 3 * KEY_SIZE);
    assert_eq!(slot.data, encoded(&keys));
    assert_eq!(payer, 10_000_000 - required);
    assert_eq!(slot.lamports, rent(4) + required);
}

#[test]
fn shrink_refunds_payer() {
    let keys: Vec<KeyElement> = (0..5).map(|i| key(i * 11)).collect();
    let mut slot = slot_with(&keys, 20_000_000);
    let mut payer: u64 = 1;
    let state = DynamicState { keys: keys[..2].to_vec() };
    let required = rent(3 * KEY_SIZE);
    assert_eq!(reconcile(&state, &mut slot, &mut payer, required), Ok(()));
    assert_eq!(slot.data.len(), 4 + 2 * KEY_SIZE);
    assert_eq!(slot.data, encoded(&keys[..2]));
    assert_eq!(slot.lamports, 20_000_000 - required);
    assert_eq!(payer, 1 + required);
}

#[test]
fn remove_absent_key_changes_nothing() {
    let mut slot = slot_with(&[key(1), key(2)], 3_000_000);
    let before = slot.data.clone();
    let mut payer: u64 = 500;
    assert_eq!(update(&mut slot, &mut payer, false, key(3), rent), Ok(()));
    assert_eq!(slot.data, before);
    assert_eq!(slot.lamports, 3_000_000);
    assert_eq!(payer, 500);
}

#[test]
fn add_then_remove_scenario() {
    let k1 = key(10);
    let k2 = key(100);
    let mut slot = Slot { data: vec![0, 0, 0, 0], lamports: rent(4), max_len: 10_240 };
    let mut payer: u64 = 50_000_000;

    assert_eq!(update(&mut slot, &mut payer, true, k1, rent), Ok(()));
    let mut expect = vec![1, 0, 0, 0];
    expect.extend_from_slice(&k1.id);
    assert_eq!(slot.data, expect);
    assert_eq!(slot.lamports, rent(4) + rent(KEY_SIZE));
    assert_eq!(payer, 50_000_000 - rent(KEY_SIZE));

    assert_eq!(update(&mut slot, &mut payer, true, k2, rent), Ok(()));
    let mut expect = vec![2, 0, 0, 0];
    expect.extend_from_slice(&k1.id);
    expect.extend_from_slice(&k2.id);
    assert_eq!(slot.data, expect);
    assert_eq!(slot.lamports, rent(4) + 2 * rent(KEY_SIZE));
    assert_eq!(payer, 50_000_000 - 2 * rent(KEY_SIZE));

    assert_eq!(update(&mut slot, &mut payer, false, k1, rent), Ok(()));
    let mut expect = vec![1, 0, 0, 0];
    expect.extend_from_slice(&k2.id);
    assert_eq!(slot.data, expect);
    assert_eq!(slot.lamports, rent(4) + rent(KEY_SIZE));
    assert_eq!(payer, 50_000_000 - rent(KEY_SIZE));
}

#[test]
fn growth_without_funds_fails() {
    let mut slot = slot_with(&[key(1)], 2_000_000);
    let mut payer: u64 = rent(KEY_SIZE) - 1;
    assert_eq!(update(&mut slot, &mut payer, true, key(2), rent), Err(DynError::InsufficientFunds));
    let mut expect = encoded(&[key(1)]);
    expect.extend_from_slice(&[0u8; 32]);
    assert_eq!(slot.data, expect);
    assert_eq!(slot.lamports, 2_000_000);
    assert_eq!(payer, rent(KEY_SIZE) - 1);
}

#[test]
fn shrink_without_slot_funds_fails() {
    let mut slot = slot_with(&[key(1), key(2)], 7);
    let mut payer: u64 = 0;
    assert_eq!(update(&mut slot, &mut payer, false, key(2), rent), Err(DynError::InsufficientFunds));
    assert_eq!(slot.data, encoded(&[key(1), key(2)])[..36].to_vec());
    assert_eq!(slot.lamports, 7);
    assert_eq!(payer, 0);
}

#[test]
fn growth_past_capacity_fails() {
    let mut slot = Slot { data: encoded(&[key(1)]), lamports: 9, max_len: 40 };
    let mut payer: u64 = 100_000_000;
    assert_eq!(update(&mut slot, &mut payer, true, key(2), rent), Err(DynError::CapacityExceeded));
    assert_eq!(slot.data, encoded(&[key(1)]));
    assert_eq!(slot.lamports, 9);
    assert_eq!(payer, 100_000_000);
}

#[test]
fn update_rejects_corrupt_slot() {
    let mut slot = Slot { data: vec![3, 0, 0, 0, 1], lamports: 9, max_len: 1000 };
    let mut payer: u64 = 100;
    assert_eq!(update(&mut slot, &mut payer, true, key(2), rent), Err(DynError::CorruptLayout));
    assert_eq!(slot.data, vec![3, 0, 0, 0, 1]);
    assert_eq!(payer, 100);
}

#[test]
fn duplicates_appended_and_removed_together() {
    let mut slot = slot_with(&[key(1)], 2_000_000);
    let mut payer: u64 = 50_000_000;
    assert_eq!(update(&mut slot, &mut payer, true, key(1), rent), Ok(()));
    assert_eq!(slot.data, encoded(&[key(1), key(1)]));
    assert_eq!(update(&mut slot, &mut payer, true, key(5), rent), Ok(()));
    assert_eq!(update(&mut slot, &mut payer, false, key(1), rent), Ok(()));
    assert_eq!(slot.data, encoded(&[key(5)]));
    assert_eq!(payer, 50_000_000 - 2 * rent(KEY_SIZE) + rent(2 * KEY_SIZE));
}

#[test]
fn state_add_and_remove_keys() {
    let mut state = DynamicState::new();
    assert!(state.keys.is_empty());
    state.add_key(key(4));
    state.add_key(key(8));
    state.add_key(key(4));
    state.remove_key(key(4));
    assert_eq!(state.keys, vec![key(8)]);
}

#[test]
fn same_key_compares_bytes() {
    assert!(same_key(&key(3), &key(3)));
    let mut other = key(3);
    other.id[31] ^= 1;
    assert!(!same_key(&key(3), &other));
}
