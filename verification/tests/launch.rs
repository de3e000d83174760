use onebrc::{
    first_slot, process_measurements, report, station_hash, Launch, Tables, NAME_MAX, TABLE_SIZE,
};
use std::collections::BTreeMap;

fn launch(grid_dim: u32, block_dim: u32) -> Launch {
    Launch { grid_dim, block_dim }
}

fn run(text: &[u8], launch: &Launch, schedule: &[usize]) -> Tables {
    let mut tables = Tables::new();
    process_measurements(text, launch, &mut tables, schedule);
    tables
}

fn run_report(text: &[u8], launch: &Launch, schedule: &[usize]) -> String {
    report(&run(text, launch, schedule)).unwrap()
}

struct Noise(u64);

impl Noise {
    fn next(&mut self) -> u64 {
        self.0 ^= self.0 << 13;
        self.0 ^= self.0 >> 7;
        self.0 ^= self.0 << 17;
        self.0
    }
}

/// Rows of random stations, with readings below 100 degrees.
fn random_text(rows: usize, stations: u64, seed: u64) -> Vec<u8> {
    let mut noise = Noise(seed);
    let mut text = Vec::new();
    for _ in 0..rows {
        let tenths = noise.next() % 1999;
        let value = tenths as i64 - 999;
        let sign = if value < 0 { "-" } else { "" };
        let row = format!(
            "station {};{}{}.{}\n",
            noise.next() % stations,
            sign,
            value.abs() / 10,
            value.abs() % 10
        );
        text.extend_from_slice(row.as_bytes());
    }
    text
}

/// All rows, aggregated in the plain way.
fn expected(text: &[u8]) -> String {
    let mut stations: BTreeMap<String, (i32, i32, i64, i32)> = BTreeMap::new();
    for row in text.split_inclusive(|&b| b == b'\n') {
        let row = std::str::from_utf8(row).unwrap().trim_end();
        let (name, value) = row.split_once(';').unwrap();
        let tenths: i32 = value.replace('.', "").parse().unwrap();
        let e = stations.entry(name.to_string()).or_insert((i32::MAX, i32::MIN, 0, 0));
        *e = (e.0.min(tenths), e.1.max(tenths), e.2 + tenths as i64, e.3 + 1);
    }
    let entries: Vec<String> = stations
        .iter()
        .map(|(name, (min, max, sum, cnt))| {
            let mean = (*sum as f64 / *cnt as f64).round() as i32;
            format!("{}={}/{}/{}", name, tenths(*min), tenths(mean), tenths(*max))
        })
        .collect();
    format!("{{{}}}", entries.join(", "))
}

fn tenths(v: i32) -> String {
    let sign = if v < 0 { "-" } else { "" };
    format!("{}{}.{}", sign, v.abs() / 10, v.abs() % 10)
}

#[test]
fn one_thread_reads_everything() {
    let text = b"Hamburg;12.0\nBulawayo;8.9\nHamburg;-3.4\n";
    assert_eq!(
        run_report(text, &launch(1, 1), &[]),
        "{Bulawayo=8.9/8.9/8.9, Hamburg=-3.4/4.3/12.0}"
    );
    let text = random_text(300, 40, 1);
    assert_eq!(run_report(&text, &launch(1, 1), &[]), expected(&text));
}

#[test]
fn an_empty_text_has_no_stations() {
    assert_eq!(run_report(b"", &launch(1, 1), &[]), "{}");
    assert_eq!(run_report(b"", &launch(2, 3), &[1, 2, 3]), "{}");
}

#[test]
fn a_row_in_which_a_part_starts_is_read_once() {
    let text = b"a;1.0\nb;2.0\n";
    // The second part starts with the second row.
    let tables = run(text, &launch(1, 2), &[]);
    for (slot, name, value) in [(11404, b'a', 10), (12709, b'b', 20)] {
        assert_eq!(tables.name_lens[slot], 1);
        assert_eq!(tables.names[slot * NAME_MAX], name);
        assert_eq!(tables.columns.sums[slot], value as i64);
        assert_eq!(tables.columns.cnts[slot], 1);
        assert_eq!(tables.columns.mins[slot], value);
        assert_eq!(tables.columns.maxs[slot], value);
    }
    assert_eq!(tables.name_lens.iter().filter(|&&len| len != 0).count(), 2);
    assert_eq!(tables.names.iter().filter(|&&b| b != 0).count(), 2);
    let text = b"a;1.0\nbb;2.0\nc;3.0\n";
    // The second part starts within the second row, or there is a part for each byte.
    for threads in 1..25 {
        let report = run_report(text, &launch(1, threads), &[]);
        assert_eq!(report, "{a=1.0/1.0/1.0, bb=2.0/2.0/2.0, c=3.0/3.0/3.0}");
    }
}

#[test]
fn every_launch_reads_every_row() {
    let text = random_text(60, 8, 77);
    let expected = expected(&text);
    for threads in 1..90 {
        assert_eq!(run_report(&text, &launch(1, threads), &[]), expected);
    }
    for grid_dim in 1..20 {
        assert_eq!(run_report(&text, &launch(grid_dim, 3), &[]), expected);
    }
}

#[test]
fn only_the_slots_of_the_stations_change() {
    let text = b"Dz;1.0\nJ4;2.5\nDz;-3.0\n";
    let tables = run(text, &launch(1, 1), &[]);
    let mut plain = Tables::new();
    assert!(plain.names.iter().all(|&b| b == 0));
    // Both stations map to one shared slot.
    for (slot, name, sum, cnt, min, max) in
        [(9771, b"Dz", -20, 2, -30, 10), (11819, b"J4", 25, 1, 25, 25)]
    {
        plain.name_lens[slot] = 2;
        plain.names[slot * NAME_MAX..slot * NAME_MAX + 2].copy_from_slice(name);
        plain.columns.sums[slot] = sum;
        plain.columns.cnts[slot] = cnt;
        plain.columns.mins[slot] = min;
        plain.columns.maxs[slot] = max;
    }
    assert_same(&tables, &plain);
}

fn assert_same(a: &Tables, b: &Tables) {
    assert!(a.name_lens == b.name_lens);
    assert!(a.names == b.names);
    assert!(a.columns.sums == b.columns.sums);
    assert!(a.columns.cnts == b.columns.cnts);
    assert!(a.columns.mins == b.columns.mins);
    assert!(a.columns.maxs == b.columns.maxs);
}

#[test]
fn an_empty_text_changes_nothing() {
    let mut tables = Tables::new();
    process_measurements(b"a;1.0\nb;2.0\n", &launch(1, 1), &mut tables, &[]);
    let again = run(b"a;1.0\nb;2.0\n", &launch(1, 1), &[]);
    process_measurements(b"", &launch(3, 2), &mut tables, &[0, 1, 2]);
    assert_same(&tables, &again);
}

#[test]
fn two_launches_are_one_on_both_texts() {
    let first = random_text(120, 30, 8);
    let second = random_text(150, 50, 9);
    let mut tables = Tables::new();
    process_measurements(&first, &launch(1, 1), &mut tables, &[]);
    process_measurements(&second, &launch(1, 1), &mut tables, &[0; 100]);
    let mut both = first.clone();
    both.extend_from_slice(&second);
    assert_same(&tables, &run(&both, &launch(1, 1), &[0; 17]));
}

#[test]
fn the_order_of_the_rows_does_not_matter() {
    let text = random_text(80, 10, 13);
    let mut rows: Vec<&[u8]> = text.split_inclusive(|&b| b == b'\n').collect();
    rows.reverse();
    let turned: Vec<u8> = rows.concat();
    assert_eq!(
        run_report(&text, &launch(2, 3), &[]),
        run_report(&turned, &launch(1, 7), &[])
    );
}

#[test]
fn values_fit_together_after_every_launch() {
    let mut tables = Tables::new();
    for seed in 1..6 {
        process_measurements(&random_text(70, 20, seed), &launch(2, 4), &mut tables, &[]);
        let c = &tables.columns;
        for g in 0..tables.name_lens.len() {
            if tables.name_lens[g] == 0 {
                let values = (c.sums[g], c.cnts[g], c.mins[g], c.maxs[g]);
                assert_eq!(values, (0, 0, i32::MAX, i32::MIN));
            } else {
                let cnt = c.cnts[g] as i64;
                assert!(1 <= tables.name_lens[g] && cnt >= 1);
                assert!(c.mins[g] <= c.maxs[g]);
                assert!(c.mins[g] as i64 * cnt <= c.sums[g]);
                assert!(c.sums[g] <= c.maxs[g] as i64 * cnt);
            }
        }
    }
}

#[test]
fn a_table_without_a_block_stays_as_it_is() {
    let tables = run(&random_text(90, 15, 4), &launch(2, 3), &[]);
    let plain = Tables::new();
    let from = 2 * TABLE_SIZE;
    assert!(tables.name_lens[from..] == plain.name_lens[from..]);
    assert!(tables.names[from * NAME_MAX..] == plain.names[from * NAME_MAX..]);
    assert!(tables.columns.cnts[from..] == plain.columns.cnts[from..]);
}

#[test]
fn the_beginning_of_a_row_at_the_end_is_not_read() {
    assert_eq!(run_report(b"a;1.0\nb;2.0", &launch(1, 1), &[]), "{a=1.0/1.0/1.0}");
    assert_eq!(run_report(b"a;1.0\nb", &launch(1, 1), &[]), "{a=1.0/1.0/1.0}");
}

#[test]
fn launches_of_any_shape_read_the_same_rows() {
    let text = random_text(400, 25, 7);
    for (grid_dim, block_dim) in [(1, 4), (2, 2), (4, 1)] {
        assert_eq!(run_report(&text, &launch(grid_dim, block_dim), &[]), expected(&text));
    }
    for (grid_dim, block_dim) in [(1, 30), (5, 6), (30, 1)] {
        assert_eq!(run_report(&text, &launch(grid_dim, block_dim), &[]), expected(&text));
    }
}

#[test]
fn the_order_of_the_threads_does_not_matter() {
    let text = random_text(200, 12, 99);
    let expected = expected(&text);
    let mut noise = Noise(4711);
    for round in 0..6 {
        let steps = 40_000;
        let schedule: Vec<usize> = match round {
            0 => vec![11; 5_000],
            1 => (0..steps).collect(),
            2 => (0..steps).rev().collect(),
            3 => (0..steps).map(|i| i / 700).collect(),
            _ => (0..steps).map(|_| noise.next() as usize).collect(),
        };
        assert_eq!(run_report(&text, &launch(3, 4), &schedule), expected);
    }
}

#[test]
fn blocks_share_out_the_tables() {
    // One block per table, and a fifth that works on the first table again.
    let text = random_text(500, 9, 5);
    let tables = run(&text, &launch(5, 1), &[]);
    for table in 0..4 {
        let named =
            (0..TABLE_SIZE).filter(|s| tables.name_lens[table * TABLE_SIZE + s] > 0).count();
        assert_eq!(named, 9);
    }
    assert_eq!(report(&tables).unwrap(), expected(&text));
}

#[test]
fn no_table_holds_a_name_twice() {
    let text = random_text(400, 30, 21);
    let mut noise = Noise(3);
    let schedule: Vec<usize> = (0..60_000).map(|_| noise.next() as usize).collect();
    let tables = run(&text, &launch(1, 16), &schedule);
    let mut names: Vec<Vec<u8>> = Vec::new();
    for s in 0..TABLE_SIZE {
        let len = tables.name_lens[s];
        assert!(len >= 0);
        if len > 0 {
            names.push(tables.names[s * NAME_MAX..s * NAME_MAX + len as usize].to_vec());
        }
    }
    let count = names.len();
    names.sort();
    names.dedup();
    assert_eq!(names.len(), count);
}

/// Two names that satisfy a test on their first slots.
fn two_names(test: fn(usize, usize) -> bool) -> (String, String) {
    let first = String::from("n0");
    let a = first_slot(station_hash(first.as_bytes()));
    for i in 1..10_000_000 {
        let name = format!("n{}", i);
        if test(a, first_slot(station_hash(name.as_bytes()))) {
            return (first, name);
        }
    }
    unreachable!()
}

#[test]
fn names_with_the_same_first_slot_stand_next_to_each_other() {
    let (a, b) = two_names(|x, y| x == y);
    let text = format!("{};1.0\n{};2.0\n{};3.0\n", a, b, a);
    let tables = run(text.as_bytes(), &launch(1, 1), &[]);
    let slot = first_slot(station_hash(a.as_bytes()));
    let next = (slot + 1) % TABLE_SIZE;
    assert_eq!(tables.name_lens[slot], a.len() as i32);
    assert_eq!(tables.name_lens[next], b.len() as i32);
    assert_eq!(&tables.names[next * NAME_MAX..next * NAME_MAX + b.len()], b.as_bytes());
    assert_eq!(tables.columns.sums[slot], 40);
    assert_eq!(tables.columns.cnts[slot], 2);
    assert_eq!(tables.columns.mins[next], 20);
    assert_eq!(tables.columns.maxs[next], 20);
    assert_eq!(report(&tables).unwrap(), expected(text.as_bytes()));
}

#[test]
fn stations_that_share_a_shared_slot_are_kept_apart() {
    let (a, b) = two_names(|x, y| x != y && x % 2048 == y % 2048);
    let text = format!("{};1.0\n{};2.0\n{};3.0\n{};4.0\n", a, b, a, b);
    assert_eq!(run_report(text.as_bytes(), &launch(1, 1), &[]), expected(text.as_bytes()));
}

#[test]
fn long_names_are_counted_under_what_is_kept_of_them() {
    let long = "x".repeat(100);
    let text = format!("{}yz;1.0\n{};2.0\n{}z;-3.0\n", long, long, long);
    assert_eq!(
        run_report(text.as_bytes(), &launch(1, 1), &[]),
        format!("{{{}=-3.0/0.0/2.0}}", long)
    );
}

#[test]
fn rows_without_a_name_are_not_reported() {
    assert_eq!(run_report(b";1.0\na;2.0\n", &launch(1, 1), &[]), "{a=2.0/2.0/2.0}");
}

#[test]
fn a_second_launch_adds_to_the_tables() {
    let mut tables = Tables::new();
    process_measurements(b"a;1.0\nb;5.0\n", &launch(1, 1), &mut tables, &[]);
    process_measurements(b"b;-2.0\nc;0.1\n", &launch(1, 1), &mut tables, &[]);
    assert_eq!(report(&tables).unwrap(), "{a=1.0/1.0/1.0, b=-2.0/1.5/5.0, c=0.1/0.1/0.1}");
}

#[test]
fn parts_of_a_text() {
    let l = launch(2, 2);
    assert_eq!(l.threads(), 4);
    assert_eq!(l.window(10, 0), (0, 3));
    assert_eq!(l.window(10, 2), (6, 9));
    assert_eq!(l.window(10, 3), (9, 10));
    assert_eq!(l.window(2, 3), (3, 2));
    assert_eq!(l.window(0, 1), (0, 0));
    let usual = Launch::usual();
    assert_eq!(usual.threads(), 1_048_576);
    for total in [1usize, 1000, 1_048_576, 13_000_000_000] {
        let mut at = 0;
        for tid in 0..usual.threads() {
            let (start, end) = usual.window(total, tid);
            if start < total {
                assert_eq!(start, at);
                at = end;
            }
        }
        assert_eq!(at, total);
    }
}
