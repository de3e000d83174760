use onebrc::{fmt_mean, fmt_val, mean_tenths, parse_temp};

#[test]
fn values_have_one_digit_behind_the_point() {
    assert_eq!(fmt_val(0), "0.0");
    assert_eq!(fmt_val(5), "0.5");
    assert_eq!(fmt_val(-5), "-0.5");
    assert_eq!(fmt_val(-123), "-12.3");
    assert_eq!(fmt_val(592), "59.2");
    assert_eq!(fmt_val(1000), "100.0");
    assert_eq!(fmt_val(i32::MAX), "214748364.7");
    assert_eq!(fmt_val(i32::MIN), "-214748364.8");
}

#[test]
fn what_is_written_reads_back() {
    for v in -32767i32..=32767 {
        let mut line = fmt_val(v).into_bytes();
        line.push(b'\n');
        assert_eq!(parse_temp(&line), Some((v as i16, line.len())));
    }
}

#[test]
fn means_round_away_from_zero() {
    assert_eq!(fmt_mean(86, 2), "4.3");
    assert_eq!(fmt_mean(5, 2), "0.3");
    assert_eq!(fmt_mean(-5, 2), "-0.3");
    assert_eq!(fmt_mean(4, 3), "0.1");
    assert_eq!(fmt_mean(-4, 3), "-0.1");
    assert_eq!(fmt_mean(1, 3), "0.0");
    assert_eq!(fmt_mean(-1, 3), "0.0");
    assert_eq!(fmt_mean(0, 7), "0.0");
    assert_eq!(fmt_mean(180, 1), "18.0");
}

#[test]
fn means_at_the_edges() {
    assert_eq!(mean_tenths(0, 0), 0);
    assert_eq!(mean_tenths(1, 0), i32::MAX);
    assert_eq!(mean_tenths(-1, 0), i32::MIN);
    assert_eq!(mean_tenths(i64::MAX, 1), i32::MAX);
    assert_eq!(mean_tenths(i64::MIN, 1), i32::MIN);
    assert_eq!(mean_tenths(i64::MIN, -1), i32::MAX);
    assert_eq!(mean_tenths(7, -2), -4);
    assert_eq!(mean_tenths(i64::MAX, i32::MAX), i32::MAX);
    assert_eq!(mean_tenths(i64::MIN, i32::MIN), i32::MAX);
    // The double next to this sum is larger than the sum, so its half rounds up.
    assert_eq!(mean_tenths(9007199254740993, i32::MAX), 4194304);
}

fn by_doubles(sum: i64, cnt: i32) -> i32 {
    (sum as f64 / cnt as f64).round() as i32
}

#[test]
fn means_are_those_of_doubles() {
    let mut x: u64 = 0x9e3779b97f4a7c15;
    for i in 0..400_000u32 {
        x ^= x << 13;
        x ^= x >> 7;
        x ^= x << 17;
        let sum = (x as i64) >> (i % 64);
        x ^= x << 13;
        x ^= x >> 7;
        x ^= x << 17;
        let cnt = (x as i32) >> (i % 31);
        assert_eq!(mean_tenths(sum, cnt), by_doubles(sum, cnt), "{} / {}", sum, cnt);
    }
}

#[test]
fn halves_are_those_of_doubles() {
    // Sums that lie next to a half of a large count, where two roundings show.
    for shift in 0..31 {
        let cnt = (1i64 << shift).max(3) - 1;
        for q in [0i64, 1, 2, 999, 32767, 1 << 20, (1 << 31) - 2] {
            for d in -2..=2 {
                for sign in [1i64, -1] {
                    let sum = sign * (q * cnt + cnt / 2 + d);
                    assert_eq!(mean_tenths(sum, cnt as i32), by_doubles(sum, cnt as i32));
                }
            }
        }
    }
}

#[test]
fn a_mean_lies_between_the_readings() {
    for readings in [[-999i64, 999, 3], [1, 1, 2], [-5, -5, -4], [32767, 32767, 32766]] {
        let sum: i64 = readings.iter().sum();
        let mean = mean_tenths(sum, 3) as i64;
        assert!(*readings.iter().min().unwrap() <= mean);
        assert!(mean <= *readings.iter().max().unwrap());
    }
}
