use dispatch::number::{decimal_text, hex_text, octal, parse_count};
use dispatch::ordered::{place, OrderedMap, Place};
use dispatch::paths::{default_dispatch_config, default_ssh_config, join_path, remote_parent};
use dispatch::shell::shell_quote;
use dispatch::text::{
    chars_of, has_char, lines, same, same_ignoring_case, squeeze, string_of, strip_prefix, trim,
    white_space, words,
};
use std::cmp::Ordering;
use std::collections::BTreeMap;
use std::path::Path;

/// Strings with every kind of character that the functions tell apart.
fn samples() -> Vec<String> {
    let pieces = [
        "", " ", "a", "B", "é", "\n", "\r", "\r\n", "\t", "'", "\"", "\\", "/", "=", "#", "\u{85}",
        "\u{3000}", "\u{ffff}", "\u{10000}", "\u{d7ff}", "\u{e000}", "12", "+", "-",
    ];
    let mut r: Vec<String> = Vec::new();
    for a in pieces {
        for b in pieces {
            for c in pieces {
                r.push(format!("{}{}{}", a, b, c));
            }
        }
    }
    r
}

#[test]
fn white_space_is_that_of_unicode() {
    for u in 0..=0x10ffffu32 {
        if let Some(c) = char::from_u32(u) {
            assert_eq!(white_space(c), c.is_whitespace(), "{:x}", u);
        }
    }
}

#[test]
fn text_functions_agree_with_the_standard_library() {
    for s in samples() {
        assert_eq!(trim(&s), s.trim());
        assert_eq!(lines(&s), s.lines().collect::<Vec<_>>());
        assert_eq!(words(&s), s.split_whitespace().collect::<Vec<_>>());
        let squeezed: String = s.chars().filter(|c| !c.is_whitespace()).collect();
        assert_eq!(squeeze(&s), squeezed);
        assert_eq!(chars_of(&s), s.chars().collect::<Vec<_>>());
        assert_eq!(has_char(&s, '\''), s.contains('\''));
        assert_eq!(
            strip_prefix(&s, "a=").as_deref(),
            s.strip_prefix("a=")
        );
        assert_eq!(strip_prefix(&s, "").as_deref(), Some(s.as_str()));
        assert_eq!(parse_count(&s), s.parse::<usize>().ok());
        assert_eq!(shell_quote(&s), format!("'{}'", s.replace('\'', "'\\''")));
    }
}

#[test]
fn case_is_ignored_in_ascii_only() {
    assert!(same_ignoring_case("HoSt", "host"));
    assert!(!same_ignoring_case("hosts", "host"));
    assert!(!same_ignoring_case("É", "é"));
    // `@` and `` ` `` differ by the same bit as letters do
    assert!(!same_ignoring_case("@", "`"));
    for a in samples() {
        assert_eq!(same_ignoring_case(&a, "ab"), a.eq_ignore_ascii_case("ab"));
        assert_eq!(same(&a, "ab"), a == "ab");
    }
    assert_eq!(string_of(&vec!['a', 'b', 'c'], 1, 3), "bc");
}

#[test]
fn lines_end_as_they_should() {
    assert_eq!(lines("a\r\nb\rc\n\nd"), vec!["a", "b\rc", "", "d"]);
    assert_eq!(lines("a\r"), vec!["a\r"]);
    assert_eq!(lines("\n"), vec![""]);
    assert!(lines("").is_empty());
}

#[test]
fn quoting_is_exact() {
    assert_eq!(shell_quote(""), "''");
    assert_eq!(shell_quote("a b"), "'a b'");
    assert_eq!(shell_quote("it's"), r"'it'\''s'");
    assert_eq!(shell_quote("''"), r"''\'''\'''");
    assert_eq!(shell_quote("$(rm) `x` \\ \" \n"), "'$(rm) `x` \\ \" \n'");
}

#[test]
fn numerals_agree_with_the_standard_library() {
    for n in [0, 1, 7, 8, 9, 0o644, 0o600, 0o755, 0o7777, 123456789, u32::MAX] {
        assert_eq!(octal(n), format!("{:o}", n));
    }
    for n in [0, 1, -1, 9, 10, -10, 255, i32::MAX, i32::MIN] {
        assert_eq!(decimal_text(n), format!("{}", n));
    }
    let bytes: Vec<u8> = (0..=255).collect();
    let expected: String = bytes.iter().map(|b| format!("{:02x}", b)).collect();
    assert_eq!(hex_text(&bytes), expected);
    assert_eq!(hex_text(&[]), "");
    assert_eq!(octal(0o644), "644");
}

#[test]
fn counts_are_read_back() {
    for n in [0usize, 1, 10, 4096, usize::MAX - 1, usize::MAX] {
        assert_eq!(parse_count(&format!("{}", n)), Some(n));
    }
    for s in ["", "+", "-1", " 1", "1 ", "1a", "0x10", "18446744073709551616", "٣"] {
        assert_eq!(parse_count(s), None, "{:?}", s);
    }
    assert_eq!(parse_count("+007"), Some(7));
}

#[test]
fn keys_are_ordered_as_strings_are() {
    let all = samples();
    for a in all.iter().step_by(7) {
        for b in all.iter().step_by(11) {
            let expected = match a.cmp(b) {
                Ordering::Less => Place::Before,
                Ordering::Equal => Place::Same,
                Ordering::Greater => Place::After,
            };
            assert_eq!(place(a, b), expected, "{:?} {:?}", a, b);
        }
    }
}

#[test]
fn the_ordered_map_behaves_like_a_tree_map() {
    let mut ours: OrderedMap<String> = OrderedMap::new();
    let mut theirs: BTreeMap<String, String> = BTreeMap::new();
    assert_eq!(ours.len(), 0);
    for (i, key) in samples().into_iter().enumerate().filter(|(i, _)| i % 13 == 0) {
        let value = format!("v{}", i);
        ours.insert(key.clone(), value.clone());
        theirs.insert(key, value);
    }
    let copy = ours.clone();
    for map in [&ours, &copy] {
        assert_eq!(map.len(), theirs.len());
        for (i, (key, value)) in theirs.iter().enumerate() {
            assert_eq!(map.key(i), key);
            assert_eq!(map.value(i), value);
        }
        for key in samples() {
            assert_eq!(map.get(&key), theirs.get(&key));
        }
    }
    // a value is replaced where its key is known
    let mut m: OrderedMap<String> = OrderedMap::new();
    m.insert("k".to_string(), "1".to_string());
    m.insert("k".to_string(), "2".to_string());
    assert_eq!(m.len(), 1);
    assert_eq!(m.get("k"), Some(&"2".to_string()));
}

#[test]
fn paths_are_joined_as_by_the_standard_library() {
    for base in ["", "/", "a", "a/", "/a/b", "./logs"] {
        for part in ["", "h", "h/", "/h", "x/y", "."] {
            let expected = Path::new(base).join(part);
            assert_eq!(join_path(base, part), expected.to_str().unwrap());
        }
    }
    assert_eq!(default_ssh_config("/home/u"), "/home/u/.ssh/config");
    assert_eq!(default_dispatch_config("/home/u"), "/home/u/.dispatch/config.toml");
    assert_eq!(default_ssh_config(""), ".ssh/config");
}

#[test]
fn parents_of_remote_paths() {
    assert_eq!(remote_parent("/a/b/c").as_deref(), Some("/a/b"));
    assert_eq!(remote_parent("/a").as_deref(), Some("/"));
    assert_eq!(remote_parent("/").as_deref(), Some("/"));
    assert_eq!(remote_parent("a/b").as_deref(), Some("a"));
    assert_eq!(remote_parent("a/").as_deref(), Some("a"));
    assert_eq!(remote_parent("a//b").as_deref(), Some("a/"));
    assert_eq!(remote_parent("file"), None);
    assert_eq!(remote_parent(""), None);
}
