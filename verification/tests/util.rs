use mandalas::util;
use mandalas::util::{distance_squared, prgb1555_least6_levels, prgb1555_levels};

#[test]
fn separated_number() {
    assert_eq!(util::separated_number(1), "1");
    assert_eq!(util::separated_number(12), "12");
    assert_eq!(util::separated_number(123), "123");
    assert_eq!(util::separated_number(1234), "1'234");
    assert_eq!(util::separated_number(12345), "12'345");
    assert_eq!(util::separated_number(123456), "123'456");
    assert_eq!(util::separated_number(1234567), "1'234'567");
    assert_eq!(util::separated_number(12345678), "12'345'678");
    assert_eq!(util::separated_number(123456789), "123'456'789");
    assert_eq!(util::separated_number(1234567890), "1'234'567'890");
    assert_eq!(util::separated_number(12345678901), "12'345'678'901");
    assert_eq!(util::separated_number(123456789012), "123'456'789'012");
    assert_eq!(util::separated_number(1234567890123), "1'234'567'890'123");
    assert_eq!(util::separated_number(12345678901234), "12'345'678'901'234");
    assert_eq!(util::separated_number(123456789012345), "123'456'789'012'345");
    assert_eq!(util::separated_number(1234567890123456), "1'234'567'890'123'456");
    assert_eq!(util::separated_number(12345678901234567), "12'345'678'901'234'567");
    assert_eq!(util::separated_number(123456789012345678), "123'456'789'012'345'678");
    assert_eq!(util::separated_number(1234567890123456789), "1'234'567'890'123'456'789");
    assert_eq!(util::separated_number(12345678901234567890), "12'345'678'901'234'567'890");
}

#[test]
fn separated_number_edges() {
    assert_eq!(util::separated_number(0), "0");
    assert_eq!(util::separated_number(1000), "1'000");
    assert_eq!(util::separated_number(100000), "100'000");
    assert_eq!(util::separated_number(u64::MAX), "18'446'744'073'709'551'615");
}

#[test]
fn separated_number_keeps_digits() {
    for n in [0u64, 7, 999, 1000, 987654321, u64::MAX] {
        assert_eq!(util::separated_number(n).replace('\'', ""), n.to_string());
    }
}

fn distance(from: (usize, usize, usize), to: (usize, usize, usize)) -> f64 {
    (distance_squared(from, to).unwrap() as f64).sqrt()
}

#[test]
fn simple() {
    assert_eq!(distance((0, 0, 0), (3, 4, 0)), 5.0);
    assert_eq!(distance((0, 0, 0), (6, 8, 0)), 10.0);
    assert_eq!(distance((0, 0, 0), (0, 8, 6)), 10.0);
}

#[test]
fn inverse() {
    assert_eq!(distance((0, 4, 0), (3, 0, 0)), 5.0);
    assert_eq!(distance((0, 8, 0), (6, 0, 0)), 10.0);
    assert_eq!(distance((0, 0, 0), (9, 12, 8)), 17.0);
}

#[test]
fn squared_distances() {
    assert_eq!(distance_squared((0, 0, 0), (3, 4, 0)), Some(25));
    assert_eq!(distance_squared((0, 0, 0), (6, 8, 0)), Some(100));
    assert_eq!(distance_squared((0, 0, 0), (0, 8, 6)), Some(100));
    assert_eq!(distance_squared((0, 4, 0), (3, 0, 0)), Some(25));
    assert_eq!(distance_squared((0, 8, 0), (6, 0, 0)), Some(100));
    assert_eq!(distance_squared((0, 0, 0), (9, 12, 8)), Some(289));
    assert_eq!(distance_squared((9, 12, 8), (0, 0, 0)), Some(289));
    assert_eq!(distance_squared((5, 5, 5), (5, 5, 5)), Some(0));
}

#[test]
fn squared_distance_overflow() {
    assert_eq!(distance_squared((0, 0, 0), (usize::MAX / 2, 0, 0)), None);
    assert_eq!(distance_squared((0, 0, 0), (1 << 40, 0, 0)), None);
}

#[test]
fn prgb1555() {
    assert_eq!(prgb1555_levels([0, 0, 0, 0]), [0, 0, 0]);
    assert_eq!(prgb1555_levels([1, 255, 8, 7]), [128 + 124, 128 + 4, 128]);
    assert_eq!(prgb1555_levels([254, 255, 16, 0]), [124, 8, 0]);
}

#[test]
fn prgb1555_least6() {
    assert_eq!(prgb1555_least6_levels([0, 0, 0, 0]), [0, 0, 0]);
    assert_eq!(prgb1555_least6_levels([0b0011_1111, 255, 8, 0]), [252, 132, 128]);
    assert_eq!(prgb1555_least6_levels([0b0001_1111, 255, 8, 0]), [124, 4, 0]);
    assert_eq!(prgb1555_least6_levels([255, 0, 0, 0]), [128, 128, 128]);
}

#[test]
fn distance_is_the_same_both_ways() {
    let a = (1 << 30, 7, 0);
    let b = (3, 1 << 30, 1 << 29);
    assert_eq!(distance_squared(a, b), distance_squared(b, a));
    assert_eq!(distance(a, a), 0.0);
    let dx = (1i128 << 30) - 3;
    let dy = 7 - (1i128 << 30);
    let dz = -(1i128 << 29);
    assert_eq!(distance_squared(a, b), Some((dx * dx + dy * dy + dz * dz) as usize));
}
