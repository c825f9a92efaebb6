use dee_bugee::number::Double;
use dee_bugee::numeral::{parse_i64, parse_number};
use dee_bugee::ordered::{TextMap, TextSet};
use dee_bugee::sorting::{stable_order, Rank};
use dee_bugee::text::{
    byte_count, contains, ends_with, is_whitespace, join, lowercase, replace, split, split_once,
    starts_with, to_lower, trim, words,
};

fn double(value: f64) -> Double {
    Double { bits: value.to_bits() }
}

const SAMPLES: [f64; 17] = [
    0.0,
    -0.0,
    1.0,
    -1.0,
    0.1,
    0.2,
    -0.3,
    1.5e300,
    -1.5e300,
    5e-324,
    2.2250738585072014e-308,
    f64::MAX,
    f64::MIN,
    f64::INFINITY,
    f64::NEG_INFINITY,
    f64::NAN,
    9007199254740993.0,
];

#[test]
fn comparisons_are_those_of_the_machine() {
    for left in SAMPLES {
        for right in SAMPLES {
            assert_eq!(double(left).is_less(double(right)), left < right);
            assert_eq!(double(left).is_equal(double(right)), left == right);
            assert_eq!(
                double(left).is_near(double(right)),
                (left - right).abs() < f64::EPSILON
            );
            assert_eq!(double(left).is_apart(double(right)), (left - right).abs() >= 1.0);
        }
        assert_eq!(double(left).is_nan(), left.is_nan());
        assert_eq!(double(left).is_finite(), left.is_finite());
    }
}

#[test]
fn sums_and_quotients_are_those_of_the_machine() {
    for left in SAMPLES {
        for right in SAMPLES {
            let sum = f64::from_bits(double(left).plus(double(right)).bits);
            let expected = left + right;
            assert!(sum == expected || (sum.is_nan() && expected.is_nan()));
            assert_eq!(sum.is_sign_negative() && sum == 0.0, expected.is_sign_negative() && expected == 0.0);
        }
        for count in [1u64, 2, 3, 7, 1_000_000_007] {
            let quotient = f64::from_bits(double(left).over(count).bits);
            let expected = left / count as f64;
            assert!(quotient == expected || (quotient.is_nan() && expected.is_nan()));
        }
    }
}

#[test]
fn integers_become_the_nearest_numbers() {
    for number in [0u64, 1, 9_007_199_254_740_993, u64::MAX, 1 << 63] {
        assert_eq!(Double::from_u64(number), double(number as f64));
    }
    for number in [0i64, -1, i64::MIN, i64::MAX, -9_007_199_254_740_993] {
        assert_eq!(Double::from_i64(number), double(number as f64));
    }
}

#[test]
fn numerals_are_read_as_the_standard_library_reads_them() {
    let texts = [
        "0", "-0", "+1", "1.", ".5", ".", "", "-", "1e5", "1e", "1e+3", "1E-3", "0x10", "1_000",
        " 1", "inf", "-INF", "infinity", "NaN", "nano", "1e400", "-1e400", "1e-400", "5e-324",
        "2.5e-324", "9007199254740993", "0.1", "123456789012345678901234567890",
        "1.7976931348623159e308", "179769313486231570000e289", "4.9406564584124654e-324",
        "1e99999999999999999999", "0e99999999999999999999", "1e-99999999999999999999", "١",
    ];
    for text in texts {
        let read = parse_number(text).map(|number| f64::from_bits(number.bits));
        match text.parse::<f64>() {
            Ok(expected) => {
                let read = read.unwrap();
                assert!(
                    read.to_bits() == expected.to_bits() || (read.is_nan() && expected.is_nan()),
                    "{text}"
                );
            }
            Err(_) => assert!(read.is_none(), "{text}"),
        }
        assert_eq!(parse_i64(text), text.parse::<i64>().ok(), "{text}");
    }
    for text in ["9223372036854775807", "9223372036854775808", "-9223372036854775808"] {
        assert_eq!(parse_i64(text), text.parse::<i64>().ok(), "{text}");
    }
}

#[test]
fn white_space_is_that_of_the_standard_library() {
    for code in 0..0x11_0000u32 {
        if let Some(character) = char::from_u32(code) {
            assert_eq!(is_whitespace(character), character.is_whitespace(), "{code:x}");
        }
    }
}

#[test]
fn texts_are_cut_and_joined_as_the_standard_library_does() {
    for text in ["", " a b ", "\u{2003}x\u{a0}", "a,b,,c,", "Straße ÄÖÜ İ", "日本 語"] {
        assert_eq!(trim(text), text.trim());
        assert_eq!(
            words(text),
            text.split(|character: char| !character.is_alphanumeric())
                .filter(|word| !word.is_empty())
                .collect::<Vec<_>>()
        );
        assert_eq!(split(text, ','), text.split(',').collect::<Vec<_>>());
        assert_eq!(byte_count(text), text.len());
        assert_eq!(lowercase(text), text.to_lowercase());
        assert_eq!(to_lower(text), text.to_ascii_lowercase());
        assert_eq!(replace(text, ",", "; "), text.replace(',', "; "));
        assert_eq!(
            split_once(text, " "),
            text.split_once(' ').map(|(head, tail)| (head.to_string(), tail.to_string()))
        );
        assert_eq!(contains(text, "b"), text.contains('b'));
        assert_eq!(starts_with(text, " a"), text.starts_with(" a"));
        assert_eq!(ends_with(text, ","), text.ends_with(','));
    }
    assert_eq!(join(&vec!["a".to_string(), "b".to_string()], "--"), "a--b");
    assert_eq!(join(&vec![], "--"), "");
}

#[test]
fn sets_and_maps_are_in_order() {
    let mut set = TextSet::new();
    for text in ["b", "a", "é", "ab", "b"] {
        set.insert(text.to_string());
    }
    assert_eq!(set.items(), &vec!["a", "ab", "b", "é"]);
    assert!(set.remove("ab"));
    assert!(!set.remove("ab"));
    assert_eq!(set.len(), 3);
    let mut map = TextMap::new();
    map.insert("x".to_string(), 1);
    map.insert("w".to_string(), 2);
    map.insert("x".to_string(), 3);
    assert_eq!(map.keys(), &vec!["w", "x"]);
    assert_eq!(map.get("x"), Some(&3));
    assert_eq!(map.remove("w"), Some(2));
    assert_eq!(map.into_entries(), vec![("x".to_string(), 3)]);
}

#[test]
fn sorting_keeps_equals_in_order() {
    let rank = |first: i128, second: i128| Rank { first, second };
    let keys = vec![rank(2, 0), rank(1, 5), rank(2, 0), rank(1, 4), rank(2, -1)];
    assert_eq!(stable_order(&keys), vec![3, 1, 4, 0, 2]);
}
