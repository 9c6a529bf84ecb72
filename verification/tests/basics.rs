use topdown::cli::{Cli, RunMode};
use topdown::name_map::NameMap;
use topdown::number::{
    pad, read_digit, read_hex, read_i32, read_i64, read_integer, strip_hex_prefix, to_decimal, to_hex,
    to_hex_field, to_signed_decimal, write_number, IntError,
};
use topdown::order::{sort, sort_by_name, sort_distinct};
use topdown::results::EventResults;
use topdown::text::{
    contains_text, copy_texts, find_char, from_chars, has_prefix, is_white_space, join, lines,
    same_chars, same_text, slice_chars, split, to_chars, to_small_letter, trim,
};

fn names(items: &[&str]) -> Vec<String> {
    items.iter().map(|s| s.to_string()).collect()
}

fn texts(parts: &Vec<Vec<char>>) -> Vec<String> {
    parts.iter().map(from_chars).collect()
}

#[test]
fn characters_come_and_go() {
    for s in ["", "a", "Größe ─ 3"] {
        assert_eq!(to_chars(s), s.chars().collect::<Vec<char>>());
        assert_eq!(from_chars(&to_chars(s)), s);
    }
    assert!(same_text("ab", "ab") && !same_text("ab", "a") && !same_text("a", "A"));
    assert!(same_chars(&to_chars("ab"), &to_chars("ab")));
    assert!(!same_chars(&to_chars("ab"), &to_chars("ac")));
    assert_eq!(from_chars(&slice_chars(&to_chars("abcd"), 1, 3)), "bc");
    assert_eq!(to_small_letter('Q'), 'q');
    assert_eq!(to_small_letter('Ä'), 'Ä');
    assert_eq!(copy_texts(&names(&["a", "b"])), names(&["a", "b"]));
    assert!(contains_text(&names(&["a", "b"]), "b") && !contains_text(&names(&["a"]), "b"));
}

#[test]
fn texts_are_trimmed_as_std_does() {
    for s in ["", "  ", " a b ", "\t\na\u{a0}", "\u{2003}x\u{3000}", "x", "\u{85}y\u{200b}"] {
        assert_eq!(from_chars(&trim(&to_chars(s))), s.trim());
    }
    for n in 0..0x3100u32 {
        if let Some(c) = char::from_u32(n) {
            assert_eq!(is_white_space(c), c.is_whitespace());
        }
    }
}

#[test]
fn texts_are_split_as_std_does() {
    for s in ["", ",", "a", "a,b", ",a,,b,", "x y"] {
        let expected: Vec<String> = s.split(',').map(|p| p.to_string()).collect();
        assert_eq!(texts(&split(&to_chars(s), ',')), expected);
    }
    for s in ["", "\n", "a", "a\n", "a\r\nb", "a\n\nb\n", "a\rb", "a\r", "\r\n\r\n"] {
        let expected: Vec<String> = s.lines().map(|p| p.to_string()).collect();
        assert_eq!(texts(&lines(&to_chars(s))), expected, "{s:?}");
    }
    assert_eq!(find_char(&to_chars("a-b-c"), '-'), 1);
    assert_eq!(find_char(&to_chars("abc"), '-'), 3);
    assert!(has_prefix(&to_chars("CapEff:\t0"), "CapEff:\t"));
    assert!(!has_prefix(&to_chars("Cap"), "CapEff:\t"));
    assert_eq!(join(&names(&["a", "b", "c"]), "; "), "a; b; c");
    assert_eq!(join(&Vec::new(), "; "), "");
}

#[test]
fn integers_are_read_as_std_does() {
    for s in [
        "", "+", "-", "0", "7", "-7", "+7", "007", "2147483647", "2147483648", "-2147483648",
        "-2147483649", "1 ", "1_0", "--1", "0x1", "99999999999999999999", "-99999999999999999999",
        "9223372036854775807", "-9223372036854775808", "9223372036854775808", "٣",
    ] {
        match s.parse::<i32>() {
            Ok(v) => assert_eq!(read_i32(&to_chars(s)), Ok(v)),
            Err(e) => assert_eq!(read_i32(&to_chars(s)).unwrap_err().message(), e.to_string()),
        }
        match s.parse::<i64>() {
            Ok(v) => assert_eq!(read_i64(&to_chars(s)), Ok(v)),
            Err(e) => assert_eq!(read_i64(&to_chars(s)).unwrap_err().message(), e.to_string()),
        }
    }
    for s in ["", "+", "-", "-0", "ff", "FF", "+a", "g", "ffffffffffffffff", "10000000000000000"] {
        match u64::from_str_radix(s, 16) {
            Ok(v) => assert_eq!(read_hex(&to_chars(s)), Ok(v)),
            Err(e) => assert_eq!(read_hex(&to_chars(s)).unwrap_err().message(), e.to_string()),
        }
    }
    assert_eq!(read_integer(&to_chars("-5"), 10, -4, 4), Err(IntError::NegOverflow));
    assert_eq!(read_digit('f', 16), Some(15));
    assert_eq!(read_digit('g', 16), None);
    assert_eq!(read_digit('8', 8), None);
}

#[test]
fn integers_are_written_as_std_does() {
    for n in [0u64, 1, 9, 10, 15, 16, 255, 4096, u64::MAX] {
        assert_eq!(to_decimal(n), format!("{n}"));
        assert_eq!(to_hex(n), format!("{n:x}"));
        assert_eq!(to_hex_field(n, 4), format!("{n:04x}"));
        assert_eq!(read_hex(&to_chars(&to_hex(n))), Ok(n));
        assert_eq!(from_chars(&write_number(n, 2)), format!("{n:b}"));
    }
    for n in [0i32, 5, -5, i32::MAX, i32::MIN] {
        assert_eq!(to_signed_decimal(n), format!("{n}"));
    }
    assert_eq!(from_chars(&pad(&to_chars("7"), 3, ' ')), "  7");
    assert_eq!(from_chars(&pad(&to_chars("1234"), 3, '0')), "1234");
    assert_eq!(from_chars(&strip_hex_prefix(&to_chars("0xab"))), "ab");
    assert_eq!(from_chars(&strip_hex_prefix(&to_chars("0Xab"))), "ab");
    assert_eq!(from_chars(&strip_hex_prefix(&to_chars("ab"))), "ab");
    assert_eq!(from_chars(&strip_hex_prefix(&to_chars("0x0xab"))), "0xab");
}

#[test]
fn lists_are_sorted_as_std_does() {
    let items = names(&["b", "a", "B", "ab", "", "a", "ä", "zz"]);
    let mut expected = items.clone();
    expected.sort();
    assert_eq!(sort(items.clone()), expected);
    expected.dedup();
    assert_eq!(sort_distinct(items), expected);
    assert_eq!(sort_distinct(vec![3, -1, 3, 0]), vec![-1, 0, 3]);
    assert_eq!(
        sort_distinct(vec![names(&["b"]), names(&["a", "b"]), names(&["b"]), names(&["a"])]),
        vec![names(&["a"]), names(&["a", "b"]), names(&["b"])]
    );
    let pairs = vec![("b".to_string(), 1u64), ("a".to_string(), 2), ("b".to_string(), 0)];
    let sorted = sort_by_name(pairs);
    assert_eq!(
        sorted,
        vec![("a".to_string(), 2u64), ("b".to_string(), 1), ("b".to_string(), 0)]
    );
}

#[test]
fn maps_keep_the_last_value_of_a_name() {
    let mut map = NameMap::new();
    assert!(map.is_empty());
    map.insert("a".to_string(), 1);
    map.insert("b".to_string(), 2);
    map.insert("a".to_string(), 3);
    assert_eq!(map.len(), 2);
    assert!(!map.is_empty());
    assert_eq!(map.get("a"), Some(&3));
    assert_eq!(map.get("b"), Some(&2));
    assert_eq!(map.get("c"), None);
    assert!(map.contains_key("b") && !map.contains_key("c"));
    assert_eq!(map.name_at(0), "a");
    assert_eq!(*map.value_at(1), 2);
}

#[test]
fn results_are_merged_and_not_added_up() {
    let mut results = EventResults::new();
    results.insert(names(&["A", "B"]), vec![Some(1.0), Some(2.0)]);
    results.insert(names(&["B", "C"]), vec![Some(5.0), None]);
    let mut more = EventResults::new();
    more.insert(names(&["A", "B"]), vec![Some(10.0), None]);
    more.insert(names(&["D"]), vec![Some(4.0)]);
    results.merge(more);
    assert_eq!(results.len(), 3);
    assert_eq!(results.get(&names(&["A", "B"])), Some(&vec![Some(10.0), None]));
    assert_eq!(results.get(&names(&["B", "C"])), Some(&vec![Some(5.0), None]));
    assert_eq!(results.get(&names(&["B", "A"])), None);
    assert_eq!(results.names_at(2), &names(&["D"]));
    assert_eq!(results.values_at(2), &vec![Some(4.0)]);
    let values = results.event_values();
    assert_eq!(values.get("A"), Some(&10.0));
    assert_eq!(values.get("B"), Some(&5.0));
    assert_eq!(values.get("C"), None);
    assert_eq!(values.get("D"), Some(&4.0));
    assert_eq!(results.last_value("B"), Some(&Some(5.0)));
    assert_eq!(results.last_value("C"), Some(&None));
    assert_eq!(results.last_value("E"), None);
}

#[test]
fn the_first_listing_that_is_asked_for_is_shown() {
    let mut cli = Cli {
        core: None,
        system_wide: false,
        pid: None,
        interval: None,
        collect_by: "metric".to_string(),
        metric_group: Vec::new(),
        node: None,
        stages: "all".to_string(),
        list_cores: false,
        list_groups: false,
        list_metrics: false,
        list_events: false,
        dump_events: false,
        no_multiplex: false,
        descriptions: false,
        command: Vec::new(),
    };
    assert_eq!(cli.run_mode(), RunMode::Capture);
    cli.list_groups = true;
    assert_eq!(cli.run_mode(), RunMode::ListGroups);
    cli.list_metrics = true;
    assert_eq!(cli.run_mode(), RunMode::ListMetrics);
    cli.list_events = true;
    assert_eq!(cli.run_mode(), RunMode::ListEvents);
    cli.list_cores = true;
    assert_eq!(cli.run_mode(), RunMode::ListCores);
}
