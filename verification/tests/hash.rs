use onebrc::{first_slot, next_slot, shared_index, station_hash, TABLE_SIZE};

#[test]
fn hashes_are_fnv1a() {
    assert_eq!(station_hash(b""), 0xcbf29ce484222325);
    assert_eq!(station_hash(b"a"), 0xaf63dc4c8601ec8c);
    assert_eq!(station_hash(b"foobar"), 0x85944171f73967e8);
}

#[test]
fn slots_wrap_around() {
    assert_eq!(first_slot(0xaf63dc4c8601ec8c), 0xec8c % TABLE_SIZE);
    assert_eq!(next_slot(0), 1);
    assert_eq!(next_slot(TABLE_SIZE - 1), 0);
    assert_eq!(shared_index(2048 + 17), 17);
    assert_eq!(shared_index(16383), 2047);
}
