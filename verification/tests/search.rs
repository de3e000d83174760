use onebrc::{
    first_slot, process_measurements, station_hash, Launch, Tables, NAME_MAX, NUM_TABLES,
    TABLE_SIZE,
};

fn name_at(tables: &Tables, table: usize, slot: usize) -> Vec<u8> {
    let g = table * TABLE_SIZE + slot;
    let len = tables.name_lens[g] as usize;
    tables.names[g * NAME_MAX..g * NAME_MAX + len].to_vec()
}

#[test]
fn empty_slot_is_claimed() {
    let mut tables = Tables::new();
    let slot = tables.find_or_claim_slot(2, b"Oslo", 5);
    assert_eq!(slot, 5);
    assert_eq!(tables.name_lens[2 * TABLE_SIZE + 5], 4);
    assert_eq!(name_at(&tables, 2, 5), b"Oslo");
    let claimed = tables.name_lens.iter().filter(|&&len| len != 0).count();
    assert_eq!(claimed, 1);
}

#[test]
fn second_search_finds_the_slot_and_changes_nothing() {
    let mut tables = Tables::new();
    let first = tables.find_or_claim_slot(0, b"Abha", 77);
    let lens = tables.name_lens.clone();
    let names = tables.names.clone();
    assert_eq!(tables.find_or_claim_slot(0, b"Abha", 77), first);
    assert_eq!(tables.name_lens, lens);
    assert_eq!(tables.names, names);
}

#[test]
fn same_hash_and_other_name_goes_one_slot_further() {
    let mut tables = Tables::new();
    assert_eq!(tables.find_or_claim_slot(1, b"Abha", 9), 9);
    assert_eq!(tables.find_or_claim_slot(1, b"Oslo", 9), 10);
    assert_eq!(tables.find_or_claim_slot(1, b"Abh", 9), 11);
    assert_eq!(tables.find_or_claim_slot(1, b"Abha", 9), 9);
    assert_eq!(tables.find_or_claim_slot(1, b"Oslo", 9), 10);
    assert_eq!(name_at(&tables, 1, 9), b"Abha");
    assert_eq!(name_at(&tables, 1, 10), b"Oslo");
    assert_eq!(name_at(&tables, 1, 11), b"Abh");
}

#[test]
fn search_goes_round() {
    let mut tables = Tables::new();
    let last = TABLE_SIZE - 1;
    assert_eq!(tables.find_or_claim_slot(3, b"a", last as u64), last);
    assert_eq!(tables.find_or_claim_slot(3, b"b", last as u64), 0);
    assert_eq!(tables.find_or_claim_slot(3, b"b", last as u64), 0);
}

#[test]
fn only_the_low_bits_of_the_hash_count() {
    let mut tables = Tables::new();
    let h = 5 * TABLE_SIZE as u64 + 3;
    assert_eq!(tables.find_or_claim_slot(0, b"x", h), 3);
    assert_eq!(tables.find_or_claim_slot(0, b"x", 3), 3);
}

#[test]
fn tables_are_searched_on_their_own() {
    let mut tables = Tables::new();
    for table in 0..NUM_TABLES {
        assert_eq!(tables.find_or_claim_slot(table, b"Rome", 40), 40);
    }
    let claimed = tables.name_lens.iter().filter(|&&len| len == 4).count();
    assert_eq!(claimed, NUM_TABLES);
}

#[test]
fn longest_and_empty_names() {
    let mut tables = Tables::new();
    let long = vec![b'n'; NAME_MAX];
    assert_eq!(tables.find_or_claim_slot(0, &long, 1), 1);
    assert_eq!(name_at(&tables, 0, 1), long);
    assert_eq!(tables.find_or_claim_slot(0, b"", 1), 2);
    assert_eq!(tables.name_lens[2], 0);
}

#[test]
fn passes_a_slot_with_the_same_length() {
    let mut tables = Tables::new();
    assert_eq!(tables.find_or_claim_slot(0, b"ab", 0), 0);
    assert_eq!(tables.find_or_claim_slot(0, b"ac", 0), 1);
    assert_eq!(tables.find_or_claim_slot(0, b"ac", 0), 1);
}

#[test]
fn finds_what_a_launch_has_claimed() {
    let mut tables = Tables::new();
    let launch = Launch { grid_dim: 1, block_dim: 2 };
    process_measurements(b"Abha;1.0\nOslo;-2.0\nAbha;3.5\n", &launch, &mut tables, &[1, 0, 1]);
    let lens = tables.name_lens.clone();
    for name in [&b"Abha"[..], &b"Oslo"[..]] {
        let h = station_hash(name);
        assert_eq!(tables.find_or_claim_slot(0, name, h), first_slot(h));
    }
    assert_eq!(tables.name_lens, lens);
}
