use chrono::{DateTime, Utc};
use subscription_governor::double::Double;
use subscription_governor::name_map::NameMap;
use subscription_governor::text::{
    contains_text, decimal, place, replace_text, same_text, trim_text, Place,
};
use subscription_governor::timestamp::Timestamp;

fn double(value: f64) -> Double {
    Double { bits: value.to_bits() }
}

/// Values of every kind and of many sizes.
fn values() -> Vec<f64> {
    let mut values = vec![
        0.0,
        -0.0,
        1.0,
        -1.0,
        0.15,
        0.85,
        0.9,
        100.0,
        5e-324,
        -5e-324,
        f64::MIN_POSITIVE,
        f64::from_bits(f64::MIN_POSITIVE.to_bits() - 1),
        f64::MAX,
        f64::MIN,
        f64::EPSILON,
        1.0 - f64::EPSILON / 2.0,
        9007199254740992.0,
        9007199254740994.0,
        f64::INFINITY,
        f64::NEG_INFINITY,
        f64::NAN,
        2f64.powi(54),
        2f64.powi(117),
        2f64.powi(-65),
    ];
    let mut seed: u64 = 42;
    for index in 0..160u64 {
        seed = seed.wrapping_mul(6364136223846793005).wrapping_add(1442695040888963407);
        values.push(f64::from_bits(seed ^ (index << 50)));
        values.push((seed >> 11) as f64 / (1u64 << 53) as f64);
        values.push(f64::from_bits(0x3ff0_0000_0000_0000 + (index << 45) - (seed >> 60)));
    }
    values
}

fn same(found: Double, expected: f64) -> bool {
    found.bits == expected.to_bits() || (expected.is_nan() && f64::from_bits(found.bits).is_nan())
}

fn instant(value: DateTime<Utc>) -> Timestamp {
    Timestamp::new(value.timestamp(), value.timestamp_subsec_nanos()).unwrap()
}

#[test]
fn arithmetic_is_that_of_floating_point() {
    for a in values() {
        for b in values() {
            let (x, y) = (double(a), double(b));
            assert!(same(x.minus(y), a - b), "{a:e} - {b:e}");
            assert!(same(x.over(y), a / b), "{a:e} / {b:e}");
            assert_eq!(x.reaches(y), a >= b, "{a:e} >= {b:e}");
            assert_eq!(x.exceeds(y), a > b, "{a:e} > {b:e}");
        }
        assert_eq!(double(a).is_finite(), a.is_finite());
    }
}

#[test]
fn integers_are_rounded_as_in_floating_point() {
    for n in [0u64, 1, 99, 100, 9007199254740993, 9007199254740995, u64::MAX, u64::MAX - 1025] {
        assert!(same(Double::from_integer(n as i128), n as f64), "{n}");
        assert!(same(Double::from_integer(-(n as i128)), if n == 0 { 0.0 } else { -(n as f64) }));
    }
}

#[test]
fn instants_are_those_of_the_calendar() {
    let first = DateTime::<Utc>::MIN_UTC;
    let last = DateTime::<Utc>::MAX_UTC;
    assert_eq!(instant(first).seconds(), first.timestamp());
    assert_eq!(instant(last).seconds(), last.timestamp());
    assert!(Timestamp::new(first.timestamp() - 1, 0).is_none());
    assert!(Timestamp::new(last.timestamp() + 1, 0).is_none());
    assert!(Timestamp::new(0, 1_000_000_000).is_none());
    assert!(Timestamp::new(59, 1_999_999_999).is_some());
    assert!(Timestamp::new(59, 2_000_000_000).is_none());
}

#[test]
fn distances_are_those_of_the_calendar() {
    let texts = [
        "2026-09-12T12:00:00.9999Z",
        "2026-09-12T12:00:01.0001Z",
        "2016-12-31T23:59:60.5Z",
        "2017-01-01T00:00:00Z",
        "2016-12-31T23:59:59.25Z",
        "1969-12-31T23:59:59.5Z",
    ];
    for a in texts {
        for b in texts {
            let x = DateTime::parse_from_rfc3339(a).unwrap().with_timezone(&Utc);
            let y = DateTime::parse_from_rfc3339(b).unwrap().with_timezone(&Utc);
            let (p, q) = (Timestamp::parse(a).unwrap(), Timestamp::parse(b).unwrap());
            assert_eq!(p, instant(x));
            assert_eq!(q.seconds_since(&p), (y - x).num_seconds(), "{a} {b}");
            assert_eq!(q.milliseconds_since(&p), (y - x).num_milliseconds(), "{a} {b}");
            assert_eq!(p.at_or_before(&q), x <= y, "{a} {b}");
            assert_eq!(p.same(&q), x == y);
        }
    }
    let x = DateTime::parse_from_rfc3339(texts[5]).unwrap().with_timezone(&Utc);
    assert_eq!(instant(x).epoch_milliseconds(), x.timestamp_millis());
}

#[test]
fn names_are_kept_in_order() {
    let mut map = NameMap::new();
    for (name, value) in [("b", 1), ("a", 2), ("ab", 3), ("b", 4)] {
        map.insert(name.to_string(), value);
    }
    assert_eq!(map.len(), 3);
    assert_eq!(map.get("b"), Some(&4));
    assert_eq!(map.get("c"), None);
    assert_eq!(map.clone().into_values(), vec![2, 3, 4]);
    assert_eq!(map.remove("ab"), Some(3));
    assert_eq!(map.remove("ab"), None);
    assert_eq!((map.name_at(0).as_str(), *map.value_at(0)), ("a", 2));
    assert_eq!((map.name_at(1).as_str(), *map.value_at(1)), ("b", 4));
}

#[test]
fn the_order_of_names_is_that_of_text() {
    let names = ["", "a", "ab", "b", "é", "\u{ffff}", "\u{10000}"];
    for a in names {
        for b in names {
            let expected = if a < b {
                Place::Before
            } else if a == b {
                Place::Same
            } else {
                Place::After
            };
            assert_eq!(place(a, b), expected);
            assert_eq!(same_text(a, b), a == b);
        }
    }
}

#[test]
fn text_is_searched_and_replaced() {
    for (text, pattern) in [("aaa", "aa"), ("abab", "ab"), ("", "a"), ("xay", "a"), ("ab", "abc")] {
        assert_eq!(contains_text(text, pattern), text.contains(pattern));
        assert_eq!(replace_text(text, pattern, "é-"), text.replace(pattern, "é-"));
    }
}

#[test]
fn white_space_is_trimmed() {
    for text in [" a b \n", "\u{a0}x\u{3000}", "\u{200b}x", "", "\t \r\n", "\u{1c}x"] {
        assert_eq!(trim_text(text).into_iter().collect::<String>(), text.trim());
    }
    assert_eq!(decimal(0), "0");
    assert_eq!(decimal(u64::MAX), "18446744073709551615");
}
