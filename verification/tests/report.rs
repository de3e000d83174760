use onebrc::{
    compare_names, list_stations, merge_stations, report, Columns, Place, Station, Tables,
    NAME_MAX, TABLE_SIZE, TOTAL_SLOTS,
};

fn station(name: &str, min: i32, max: i32, sum: i64, cnt: i32) -> Station {
    Station { name: name.to_string(), min, max, sum, cnt }
}

fn put(tables: &mut Tables, slot: usize, name: &[u8], min: i32, max: i32, sum: i64, cnt: i32) {
    tables.name_lens[slot] = name.len() as i32;
    tables.names[slot * NAME_MAX..slot * NAME_MAX + name.len()].copy_from_slice(name);
    tables.columns.mins[slot] = min;
    tables.columns.maxs[slot] = max;
    tables.columns.sums[slot] = sum;
    tables.columns.cnts[slot] = cnt;
}

#[test]
fn names_are_in_the_order_of_their_bytes() {
    assert_eq!(compare_names("Abha", "Abidjan"), Place::Before);
    assert_eq!(compare_names("Abha", "Abha"), Place::Same);
    assert_eq!(compare_names("b", "Z"), Place::After);
    assert_eq!(compare_names("", "a"), Place::Before);
    assert_eq!(compare_names("ab", "a"), Place::After);
    assert_eq!(compare_names("Zürich", "Zurich"), Place::After);
    let names = ["São Tomé", "Sao", "ÿ", "z", "", "日本", "Abéché", "Abeche"];
    for a in names {
        for b in names {
            let expected = match a.cmp(b) {
                std::cmp::Ordering::Less => Place::Before,
                std::cmp::Ordering::Equal => Place::Same,
                std::cmp::Ordering::Greater => Place::After,
            };
            assert_eq!(compare_names(a, b), expected);
        }
    }
}

#[test]
fn lists_look_like_this() {
    assert_eq!(list_stations(&[]), "{}");
    assert_eq!(list_stations(&[station("Abha", -230, 592, 180, 1)]), "{Abha=-23.0/18.0/59.2}");
    assert_eq!(
        list_stations(&[
            station("Abha", -230, 592, 180, 1),
            station("Abidjan", -162, 673, 520, 2),
        ]),
        "{Abha=-23.0/18.0/59.2, Abidjan=-16.2/26.0/67.3}"
    );
}

#[test]
fn stations_are_merged_by_name_and_sorted() {
    let list = [
        station("c", 1, 5, 6, 2),
        station("a", -3, 4, 1, 2),
        station("c", -7, 2, -5, 2),
        station("b", 0, 0, 0, 1),
        station("a", -2, 9, 7, 2),
    ];
    let merged = merge_stations(&list).unwrap();
    let plain: Vec<(&str, i32, i32, i64, i32)> =
        merged.iter().map(|s| (s.name.as_str(), s.min, s.max, s.sum, s.cnt)).collect();
    assert_eq!(plain, vec![("a", -3, 9, 8, 4), ("b", 0, 0, 0, 1), ("c", -7, 5, 1, 4)]);
}

#[test]
fn merging_does_not_depend_on_the_order() {
    let a = [station("x", 1, 2, 3, 2), station("y", 4, 4, 4, 1), station("x", 0, 9, 9, 2)];
    let b = [station("x", 0, 9, 9, 2), station("x", 1, 2, 3, 2), station("y", 4, 4, 4, 1)];
    assert_eq!(
        list_stations(&merge_stations(&a).unwrap()),
        list_stations(&merge_stations(&b).unwrap())
    );
}

#[test]
fn sums_and_counts_that_overflow_are_noticed() {
    let sums = [station("x", 0, 0, i64::MAX, 1), station("x", 0, 0, 1, 1)];
    assert!(merge_stations(&sums).is_none());
    let apart = [station("x", 0, 0, i64::MAX, 1), station("y", 0, 0, 1, 1)];
    assert!(merge_stations(&apart).is_some());
    let counts = [station("x", 0, 0, 0, i32::MAX), station("x", 0, 0, 0, 1)];
    assert!(merge_stations(&counts).is_none());
}

#[test]
fn tables_are_reported_together() {
    let mut tables = Tables::new();
    put(&mut tables, 7, b"Oslo", -50, 120, 70, 2);
    put(&mut tables, TABLE_SIZE + 3, b"Bonn", 10, 10, 10, 1);
    put(&mut tables, 3 * TABLE_SIZE + 9, b"Oslo", -80, -80, -80, 1);
    assert!(tables.is_readable());
    assert_eq!(report(&tables).unwrap(), "{Bonn=1.0/1.0/1.0, Oslo=-8.0/-0.3/12.0}");
}

#[test]
fn empty_and_half_written_slots_are_not_reported() {
    let mut tables = Tables::new();
    assert_eq!(report(&tables).unwrap(), "{}");
    tables.columns.cnts[5] = 3;
    tables.name_lens[6] = -1;
    assert!(tables.is_readable());
    assert_eq!(report(&tables).unwrap(), "{}");
}

#[test]
fn invalid_utf8_is_replaced() {
    let mut tables = Tables::new();
    put(&mut tables, 0, b"a\xffb", 10, 10, 10, 1);
    put(&mut tables, 1, "Zürich".as_bytes(), 20, 20, 20, 1);
    assert_eq!(report(&tables).unwrap(), "{Zürich=2.0/2.0/2.0, a\u{fffd}b=1.0/1.0/1.0}");
}

#[test]
fn names_that_look_the_same_are_merged() {
    let mut tables = Tables::new();
    put(&mut tables, 0, b"a\xff", 10, 10, 10, 1);
    put(&mut tables, 1, b"a\xfe", 20, 20, 20, 1);
    assert_eq!(report(&tables).unwrap(), "{a\u{fffd}=1.0/1.5/2.0}");
}

#[test]
fn an_overflow_leaves_no_report() {
    let mut tables = Tables::new();
    put(&mut tables, 0, b"a", 0, 0, i64::MIN, 1);
    put(&mut tables, TABLE_SIZE, b"a", 0, 0, -1, 1);
    assert!(report(&tables).is_none());
}

#[test]
fn names_have_to_lie_within_the_tables() {
    let mut tables = Tables::new();
    tables.name_lens[TOTAL_SLOTS - 1] = NAME_MAX as i32;
    assert!(tables.is_readable());
    tables.name_lens[TOTAL_SLOTS - 1] = NAME_MAX as i32 + 1;
    assert!(!tables.is_readable());
    let short = Tables { name_lens: vec![0; 10], names: vec![0; 1000], columns: Columns::new(10) };
    assert!(!short.is_readable());
}
