use tetoscribe::env::{
    env_bool, env_f32, env_i32, env_or_default, env_u64, env_usize, EnvVars,
};
use tetoscribe::numeric::{decimal_text, hex8_text, parse_unsigned, signed_decimal_text};
use tetoscribe::string_map::{comes_before, StringMap};
use tetoscribe::text::{
    code_point, contains, is_white_space, same_text, split, split_once, split_whitespace, to_chars,
    trim,
};

const SAMPLES: [&str; 14] = [
    "",
    " ",
    "a",
    " a b ",
    "\t\r\n",
    "a,b,,c",
    ",",
    "key=value=more",
    "=",
    "\u{a0}неразрывный\u{3000}",
    "one  two\tthree\n",
    "aaab",
    "ab\u{1f600}c",
    "x: y",
];

#[test]
fn white_space_is_that_of_char() {
    for n in 0..=0x10ffffu32 {
        if let Some(c) = char::from_u32(n) {
            assert_eq!(is_white_space(c), c.is_whitespace(), "{n:x}");
            assert_eq!(code_point(c), n);
        }
    }
}

#[test]
fn texts_are_taken_apart_as_str_does() {
    for s in SAMPLES {
        assert_eq!(trim(s), s.trim());
        assert_eq!(to_chars(s), s.chars().collect::<Vec<_>>());
        assert_eq!(split_whitespace(s), s.split_whitespace().collect::<Vec<_>>());
        for sep in [',', '=', ':', '\n', 'a'] {
            assert_eq!(split(s, sep), s.split(sep).collect::<Vec<_>>());
            assert_eq!(split_once(s, sep), s.split_once(sep));
        }
        for t in SAMPLES {
            assert_eq!(contains(s, t), s.contains(t));
            assert_eq!(same_text(s, t), s == t);
            assert_eq!(comes_before(s, t), s < t);
        }
    }
}

#[test]
fn numbers_are_spelled_as_display_does() {
    for n in [0u64, 7, 10, 99, 100, 12_345, u64::MAX] {
        assert_eq!(decimal_text(n), n.to_string());
        assert_eq!(parse_unsigned(&n.to_string(), u64::MAX), Some(n));
    }
    for n in [0i64, -1, 1, -10, i64::MIN, i64::MAX] {
        assert_eq!(signed_decimal_text(n), n.to_string());
    }
    for n in [0u32, 0xf, 0x2074_6d66, u32::MAX] {
        assert_eq!(hex8_text(n), format!("{n:08x}"));
    }
}

#[test]
fn numbers_are_read_as_parse_does() {
    for s in ["", "+", "+5", "-5", "-0", "007", " 5", "5 ", "1a", "255", "256", "99999999999999999999", "٣"] {
        assert_eq!(parse_unsigned(s, u64::MAX), s.parse::<u64>().ok(), "{s:?}");
        assert_eq!(parse_unsigned(s, 255), s.parse::<u8>().ok().map(u64::from), "{s:?}");
    }
}

#[test]
fn maps_keep_their_keys_in_order() {
    let mut map: StringMap<String> = StringMap::new();
    assert!(map.is_empty());
    for key in ["b", "a", "ä", "aa", "b"] {
        map.insert(key.to_owned(), key.to_uppercase());
    }
    assert_eq!(map.keys(), vec!["a", "aa", "b", "ä"]);
    assert_eq!(map.len(), 4);
    assert_eq!(map.get("aa"), Some(&"AA".to_owned()));
    assert_eq!(map.get("c"), None);
    map.or_insert("a".to_owned(), "other".to_owned());
    map.or_insert("c".to_owned(), "C".to_owned());
    assert_eq!(map.get("a"), Some(&"A".to_owned()));
    assert!(map.contains_key("c"));
    assert_eq!(map.remove("b"), Some("B".to_owned()));
    assert_eq!(map.remove("b"), None);
    assert_eq!(map.entry(2), (&"c".to_owned(), &"C".to_owned()));
}

#[test]
fn settings_fall_back_to_their_defaults() {
    let mut env = EnvVars::new();
    assert_eq!(env.var("TEXT"), None);
    env.set("TEXT", "  kept  ");
    env.set("BLANK", " \t");
    env.set("NUMBER", "12");
    env.set("ZERO", "0");
    env.set("SPACED", " 12");
    env.set("HUGE", "99999999999");
    assert_eq!(env.var("TEXT"), Some(&"  kept  ".to_owned()));
    assert_eq!(env_or_default(&env, "TEXT", "d"), "kept");
    assert_eq!(env_or_default(&env, "BLANK", "d"), "d");
    assert_eq!(env_or_default(&env, "MISSING", "d"), "d");
    assert_eq!(env_u64(&env, "NUMBER", 1), 12);
    assert_eq!(env_u64(&env, "HUGE", 1), 99_999_999_999);
    assert_eq!(env_usize(&env, "ZERO", 3), 3);
    assert_eq!(env_usize(&env, "SPACED", 3), 3);
    assert_eq!(env_i32(&env, "HUGE", 4), 4);
    assert_eq!(env_i32(&env, "NUMBER", 4), 12);
}

#[test]
fn truth_values_are_read_in_any_case() {
    let mut env = EnvVars::new();
    for (word, value) in [
        ("1", true), ("TRUE", true), ("Yes", true), ("on", true),
        ("0", false), ("False", false), ("NO", false), ("off", false),
    ] {
        env.set("FLAG", word);
        assert_eq!(env_bool(&env, "FLAG", !value), value);
    }
    env.set("FLAG", " true");
    assert!(!env_bool(&env, "FLAG", false));
    assert!(env_bool(&env, "FLAG", true));
    assert!(env_bool(&env, "MISSING", true));
}

#[test]
fn proportions_lie_between_zero_and_one() {
    let default = 0.85f32.to_bits();
    for value in [0.0f32, -0.0, 1.0, 0.5, f32::MIN_POSITIVE, 1.0e-45] {
        assert_eq!(env_f32(Some(value.to_bits()), default), value.to_bits());
    }
    for value in [-0.1f32, 1.0000001, 2.0, f32::NAN, -f32::NAN, f32::INFINITY, f32::NEG_INFINITY] {
        assert_eq!(env_f32(Some(value.to_bits()), default), default);
    }
    assert_eq!(env_f32(None, default), default);
}
