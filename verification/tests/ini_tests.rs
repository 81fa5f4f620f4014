use ini_parser::ini::parse;
use ini_parser::ini::Item;

fn collect<'a>(text: &'a str) -> Vec<Item<'a>> {
    let mut parser = parse(text);
    let mut items = Vec::new();
    while let Some(item) = parser.next_item() {
        items.push(item);
    }
    items
}

#[test]
fn section_line() {
    let items = collect("[server]");
    assert_eq!(items.len(), 1);
    match items[0] {
        Item::Section(name) => assert_eq!(name, "server"),
        _ => panic!("expected a section"),
    }
}

#[test]
fn comment_line_emits_nothing() {
    let mut parser = parse("  # comment ");
    assert!(parser.next_item().is_none());
}

#[test]
fn blank_lines_emit_nothing() {
    let mut parser = parse("");
    assert!(parser.next_item().is_none());
    let mut parser = parse("   ");
    assert!(parser.next_item().is_none());
}

#[test]
fn bare_key_line() {
    let items = collect("enabled");
    assert_eq!(items.len(), 1);
    match items[0] {
        Item::Key(name) => assert_eq!(name, "enabled"),
        _ => panic!("expected a bare key"),
    }
}

#[test]
fn key_value_splits_at_first_equals_only() {
    let items = collect("  name = value with = sign ");
    assert_eq!(items.len(), 1);
    match items[0] {
        Item::KeyValue(key, value) => {
            assert_eq!(key, "name");
            assert_eq!(value, "value with = sign");
        }
        _ => panic!("expected a key/value pair"),
    }
}

#[test]
fn unterminated_bracket_falls_through_to_key() {
    let items = collect("[incomplete");
    assert_eq!(items.len(), 1);
    match items[0] {
        Item::Key(name) => assert_eq!(name, "[incomplete"),
        _ => panic!("expected a bare key"),
    }
}

#[test]
fn unterminated_bracket_with_equals_is_key_value() {
    let items = collect("[incomplete = 5");
    assert_eq!(items.len(), 1);
    match items[0] {
        Item::KeyValue(key, value) => {
            assert_eq!(key, "[incomplete");
            assert_eq!(value, "5");
        }
        _ => panic!("expected a key/value pair"),
    }
}

#[test]
fn empty_section_name() {
    let items = collect("[]");
    assert_eq!(items.len(), 1);
    match items[0] {
        Item::Section(name) => assert_eq!(name, ""),
        _ => panic!("expected a section"),
    }
}

#[test]
fn section_name_is_not_trimmed_again() {
    let items = collect("[ server ]");
    assert_eq!(items.len(), 1);
    match items[0] {
        Item::Section(name) => assert_eq!(name, " server "),
        _ => panic!("expected a section"),
    }
}

#[test]
fn item_count_and_order() {
    let text = "# top comment\n\n[options]\nHoldPkg = pacman glibc\n   \nCheckSpace\n# tail\nColor\n";
    let items = collect(text);
    // 8 source lines, of which 4 are blank or comments.
    assert_eq!(items.len(), 4);
    match items[0] {
        Item::Section(name) => assert_eq!(name, "options"),
        _ => panic!("expected a section first"),
    }
    match items[1] {
        Item::KeyValue(key, value) => {
            assert_eq!(key, "HoldPkg");
            assert_eq!(value, "pacman glibc");
        }
        _ => panic!("expected a key/value pair second"),
    }
    match items[2] {
        Item::Key(name) => assert_eq!(name, "CheckSpace"),
        _ => panic!("expected a bare key third"),
    }
    match items[3] {
        Item::Key(name) => assert_eq!(name, "Color"),
        _ => panic!("expected a bare key fourth"),
    }
}

#[test]
fn exhaustion_is_stable() {
    let mut parser = parse("one\n# done\n");
    assert!(parser.next_item().is_some());
    for _ in 0..5 {
        assert!(parser.next_item().is_none());
    }
}

#[test]
fn key_value_round_trip() {
    let items = collect("name = value with = sign");
    let (key, value) = match items[0] {
        Item::KeyValue(key, value) => (key, value),
        _ => panic!("expected a key/value pair"),
    };
    let rebuilt = format!("{}={}", key, value);
    let again = collect(&rebuilt);
    assert_eq!(again.len(), 1);
    match again[0] {
        Item::KeyValue(key2, value2) => {
            assert_eq!(key2, key);
            assert_eq!(value2, value);
        }
        _ => panic!("expected a key/value pair again"),
    }
}

#[test]
fn value_with_hash_is_not_a_comment() {
    let items = collect("key = #not a comment");
    match items[0] {
        Item::KeyValue(key, value) => {
            assert_eq!(key, "key");
            assert_eq!(value, "#not a comment");
        }
        _ => panic!("expected a key/value pair"),
    }
}

#[test]
fn crlf_line_endings() {
    let items = collect("a = 1\r\nb = 2\r\n");
    assert_eq!(items.len(), 2);
    match items[0] {
        Item::KeyValue(key, value) => {
            assert_eq!(key, "a");
            assert_eq!(value, "1");
        }
        _ => panic!("expected a key/value pair"),
    }
    match items[1] {
        Item::KeyValue(key, value) => {
            assert_eq!(key, "b");
            assert_eq!(value, "2");
        }
        _ => panic!("expected a key/value pair"),
    }
}

#[test]
fn empty_keys_and_values() {
    let items = collect("=\na=\n=b\n");
    assert_eq!(items.len(), 3);
    match items[0] {
        Item::KeyValue(key, value) => {
            assert_eq!(key, "");
            assert_eq!(value, "");
        }
        _ => panic!("expected a key/value pair"),
    }
    match items[1] {
        Item::KeyValue(key, value) => {
            assert_eq!(key, "a");
            assert_eq!(value, "");
        }
        _ => panic!("expected a key/value pair"),
    }
    match items[2] {
        Item::KeyValue(key, value) => {
            assert_eq!(key, "");
            assert_eq!(value, "b");
        }
        _ => panic!("expected a key/value pair"),
    }
}

#[test]
fn trailing_newline_opens_no_extra_line() {
    let items = collect("a\n");
    assert_eq!(items.len(), 1);
    let items = collect("a");
    assert_eq!(items.len(), 1);
}

#[test]
fn items_borrow_the_source_buffer() {
    let text = String::from("[repo]\nserver = https://example.org\n");
    let items = collect(&text);
    assert_eq!(items.len(), 2);
    // Each returned slice points into the original buffer.
    let range = text.as_ptr() as usize..text.as_ptr() as usize + text.len();
    match items[1] {
        Item::KeyValue(key, value) => {
            assert!(range.contains(&(key.as_ptr() as usize)));
            assert!(range.contains(&(value.as_ptr() as usize)));
        }
        _ => panic!("expected a key/value pair"),
    }
}
