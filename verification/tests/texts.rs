use rgit::order::text_before;
use rgit::strmap::StrMap;
use rgit::text::{chars_of, split_lines, split_pieces, text_in};

fn lines_of(text: &str) -> Vec<String> {
    split_lines(&chars_of(text)).into_iter().map(|line| line.into_iter().collect()).collect()
}

#[test]
fn chars_of_gives_the_characters_in_order() {
    assert_eq!(chars_of("a\u{e9}\u{1f600}b"), vec!['a', '\u{e9}', '\u{1f600}', 'b']);
    assert_eq!(chars_of(""), Vec::<char>::new());
}

#[test]
fn split_lines_drops_only_the_empty_piece_after_a_final_line_feed() {
    assert_eq!(lines_of(""), Vec::<String>::new());
    assert_eq!(lines_of("a"), vec!["a"]);
    assert_eq!(lines_of("a\n"), vec!["a"]);
    assert_eq!(lines_of("a\nb"), vec!["a", "b"]);
    assert_eq!(lines_of("a\n\nb\n"), vec!["a", "", "b"]);
    assert_eq!(lines_of("\n"), vec![""]);
    assert_eq!(lines_of("\n\n"), vec!["", ""]);
    assert_eq!(lines_of("a\r\n"), vec!["a\r"]);
}

#[test]
fn split_pieces_gives_one_more_piece_than_separators() {
    let split = |text: &str| -> Vec<String> {
        split_pieces(&chars_of(text), '/').into_iter().map(|p| p.into_iter().collect()).collect()
    };
    assert_eq!(split(""), vec![""]);
    assert_eq!(split("a"), vec!["a"]);
    assert_eq!(split("a/b"), vec!["a", "b"]);
    assert_eq!(split("/a//b/"), vec!["", "a", "", "b", ""]);
    assert_eq!(split("/"), vec!["", ""]);
}

#[test]
fn text_in_finds_a_member() {
    let list = vec!["a".to_string(), "bc".to_string()];
    assert!(text_in(&list, "bc"));
    assert!(!text_in(&list, "b"));
    assert!(!text_in(&Vec::new(), ""));
}

#[test]
fn text_before_orders_by_character_and_puts_a_prefix_first() {
    assert!(text_before("", ""));
    assert!(text_before("", "a"));
    assert!(!text_before("a", ""));
    assert!(text_before("a", "a"));
    assert!(text_before("a", "ab"));
    assert!(!text_before("ab", "a"));
    assert!(text_before("ab", "b"));
    assert!(text_before("Z", "a"));
    assert!(text_before("a", "\u{e9}"));
    assert!(!text_before("\u{e9}", "z"));
    assert!(text_before("\u{ffff}", "\u{10000}"));
}

#[test]
fn a_map_keeps_its_keys_in_the_order_of_first_insertion() {
    let mut map: StrMap<String> = StrMap::new();
    assert_eq!(map.len(), 0);
    map.insert("b".to_string(), "1".to_string());
    map.insert("a".to_string(), "2".to_string());
    map.insert("b".to_string(), "3".to_string());
    assert_eq!(map.len(), 2);
    assert_eq!(map.key_at(0), "b");
    assert_eq!(map.value_at(0), "3");
    assert_eq!(map.key_at(1), "a");
    assert_eq!(map.position("a"), Some(1));
    assert_eq!(map.position("c"), None);
    assert_eq!(map.get("a"), Some(&"2".to_string()));
    assert_eq!(map.get("c"), None);
    assert!(map.contains_key("b"));
    map.remove("b");
    map.remove("c");
    assert_eq!(map.len(), 1);
    assert_eq!(map.key_at(0), "a");
    assert!(!map.contains_key("b"));
}
