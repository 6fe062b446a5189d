//! Tests of the fixed-capacity table and its key reduction.

use superdupergrid::grid::Entry;
use superdupergrid::table::hash_u64;
use superdupergrid::table::next_power_of_two_at_least;
use superdupergrid::table::vector_hash;
use superdupergrid::table::Table;

#[test]
fn hash_is_identity() {
    assert_eq!(hash_u64(0), 0);
    assert_eq!(hash_u64(12345), 12345);
    assert_eq!(hash_u64(u64::MAX), u64::MAX);
}

#[test]
fn vector_hash_packs_high_and_low() {
    assert_eq!(vector_hash(0, 0), 0);
    assert_eq!(vector_hash(0, 7), 7);
    assert_eq!(vector_hash(1, 0), 1 << 32);
    assert_eq!(vector_hash(1, 2), (1u64 << 32) | 2);
    assert_eq!(vector_hash(u32::MAX, u32::MAX), u64::MAX);
}

#[test]
fn next_power_of_two_values() {
    assert_eq!(next_power_of_two_at_least(0), 1);
    assert_eq!(next_power_of_two_at_least(1), 1);
    assert_eq!(next_power_of_two_at_least(2), 2);
    assert_eq!(next_power_of_two_at_least(3), 4);
    assert_eq!(next_power_of_two_at_least(1000), 1024);
    assert_eq!(next_power_of_two_at_least(1024), 1024);
    assert_eq!(next_power_of_two_at_least(1025), 2048);
}

#[test]
fn table_capacity_and_clear() {
    let mut t: Table<Entry> = Table::new(1);
    assert_eq!(t.count(), 1025);
    t.get_vector_mut(3, 4).0.push(42);
    assert_eq!(t.get_vector(3, 4).0, vec![42]);
    t.clear();
    assert_eq!(t.count(), 1025);
    assert_eq!(t.get_vector(3, 4).0, Vec::<u32>::new());
}

#[test]
fn scalar_and_vector_keys_address_slots() {
    let mut t: Table<Entry> = Table::new(1);
    t.get_scalar_mut(9).0.push(1);
    assert_eq!(t.get_scalar(9).0, vec![1]);
    // The same scalar key reduced again lands in the same slot.
    t.get_scalar_mut(9).0.push(2);
    assert_eq!(t.get_scalar(9).0, vec![1, 2]);
    // A scalar key and the vector key (0, s) coincide by construction.
    assert_eq!(t.get_vector(0, 9).0, vec![1, 2]);
}

#[test]
fn aliased_keys_share_a_slot() {
    // Capacity 1025: keys 0 and 1025 reduce to the same slot.
    let mut t: Table<Entry> = Table::new(1);
    t.get_scalar_mut(0).0.push(5);
    assert_eq!(t.get_vector(0, 1025).0, vec![5]);
}
