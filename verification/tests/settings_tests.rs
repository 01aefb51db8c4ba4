use backend_supervisor::settings::SettingsMap;
use backend_supervisor::settings_file::{get_settings, merge_settings, parse_settings, save_settings};

fn map_of(pairs: &[(&str, &str)]) -> SettingsMap {
    let mut map = SettingsMap::new();
    for (key, value) in pairs {
        map.insert(key.to_string(), value.to_string());
    }
    map
}

fn value(map: &SettingsMap, key: &str) -> Option<String> {
    map.get(&key.to_string()).cloned()
}

#[test]
fn empty_text_holds_no_settings() {
    let map = parse_settings("");
    assert_eq!(map.len(), 0);
}

#[test]
fn parses_key_value_lines() {
    let map = parse_settings("A=1\nB=two\n");
    assert_eq!(map.len(), 2);
    assert_eq!(value(&map, "A"), Some("1".to_string()));
    assert_eq!(value(&map, "B"), Some("two".to_string()));
    assert_eq!(value(&map, "C"), None);
}

#[test]
fn keys_and_values_are_trimmed() {
    let map = parse_settings("  NAME \t=  some value  \n");
    assert_eq!(map.len(), 1);
    assert_eq!(value(&map, "NAME"), Some("some value".to_string()));
}

#[test]
fn unicode_white_space_is_trimmed() {
    let map = parse_settings("\u{3000}K\u{a0}=\u{2003}v\u{2028}");
    assert_eq!(value(&map, "K"), Some("v".to_string()));
}

#[test]
fn splits_on_the_first_equals_sign() {
    let map = parse_settings("URL=http://host/?a=b\n");
    assert_eq!(value(&map, "URL"), Some("http://host/?a=b".to_string()));
}

#[test]
fn comments_and_blank_lines_are_skipped() {
    let map = parse_settings("# note\n\n   \n  # indented=comment\nA=1\n");
    assert_eq!(map.len(), 1);
    assert_eq!(value(&map, "A"), Some("1".to_string()));
}

#[test]
fn malformed_line_is_skipped() {
    let map = parse_settings("justtext");
    assert_eq!(map.len(), 0);
    let map = parse_settings("A=1\njusttext\nB=2\n");
    assert_eq!(map.len(), 2);
    assert_eq!(value(&map, "A"), Some("1".to_string()));
    assert_eq!(value(&map, "B"), Some("2".to_string()));
}

#[test]
fn later_line_wins_and_keeps_the_first_place() {
    let map = parse_settings("A=1\nB=2\nA=3\n");
    assert_eq!(map.len(), 2);
    assert_eq!(map.key_at(0), "A");
    assert_eq!(map.value_at(0), "3");
    assert_eq!(map.key_at(1), "B");
}

#[test]
fn empty_key_and_empty_value_are_settings() {
    let map = parse_settings("=x\nK=\n");
    assert_eq!(value(&map, ""), Some("x".to_string()));
    assert_eq!(value(&map, "K"), Some("".to_string()));
}

#[test]
fn carriage_returns_end_lines_too() {
    let map = parse_settings("A=1\r\nB=2\r\n");
    assert_eq!(value(&map, "A"), Some("1".to_string()));
    assert_eq!(value(&map, "B"), Some("2".to_string()));
}

#[test]
fn last_line_needs_no_line_feed() {
    let map = parse_settings("A=1\nB=2");
    assert_eq!(value(&map, "B"), Some("2".to_string()));
}

#[test]
fn save_then_load_round_trip() {
    let first = merge_settings("", &map_of(&[("A", "1")]));
    assert_eq!(first, "A=1\n");
    assert_eq!(value(&parse_settings(&first), "A"), Some("1".to_string()));

    let second = merge_settings(&first, &map_of(&[("A", "2")]));
    assert_eq!(second, "A=2\n");
    assert_eq!(value(&parse_settings(&second), "A"), Some("2".to_string()));
}

#[test]
fn update_in_place_leaves_other_lines_alone() {
    let before = "# settings\nA=1\n\nB=keep\n# end\n";
    let after = merge_settings(before, &map_of(&[("A", "2")]));
    assert_eq!(after, "# settings\nA=2\n\nB=keep\n# end\n");
}

#[test]
fn merge_preserves_comments_and_appends_new_keys() {
    let after = merge_settings("# note\nA=1\n", &map_of(&[("B", "2")]));
    assert_eq!(after, "# note\nA=1\nB=2\n");
}

#[test]
fn new_keys_are_appended_in_the_order_of_the_updates() {
    let after = merge_settings("A=1\n", &map_of(&[("Z", "26"), ("A", "one"), ("B", "2")]));
    assert_eq!(after, "A=one\nZ=26\nB=2\n");
}

#[test]
fn rewritten_line_is_normalised_and_others_are_verbatim() {
    let after = merge_settings("  A =  old  \n  B =  same  \nnot a pair\n", &map_of(&[("A", "new")]));
    assert_eq!(after, "A=new\n  B =  same  \nnot a pair\n");
}

#[test]
fn every_line_that_sets_the_key_is_rewritten() {
    let after = merge_settings("A=1\nB=2\nA=3\n", &map_of(&[("A", "9")]));
    assert_eq!(after, "A=9\nB=2\nA=9\n");
}

#[test]
fn commented_out_key_is_not_rewritten() {
    let after = merge_settings("#A=1\n", &map_of(&[("A", "2")]));
    assert_eq!(after, "#A=1\nA=2\n");
}

#[test]
fn merge_with_no_updates_normalises_line_endings_only() {
    assert_eq!(merge_settings("A=1\r\nB=2", &SettingsMap::new()), "A=1\nB=2\n");
    assert_eq!(merge_settings("", &SettingsMap::new()), "");
    assert_eq!(merge_settings("\n\n", &SettingsMap::new()), "\n\n");
}

#[test]
fn settings_map_updates_in_place() {
    let mut map = SettingsMap::new();
    map.insert("A".to_string(), "1".to_string());
    map.insert("B".to_string(), "2".to_string());
    map.insert("A".to_string(), "3".to_string());
    assert_eq!(map.len(), 2);
    assert_eq!(map.position(&"A".to_string()), 0);
    assert_eq!(map.position(&"B".to_string()), 1);
    assert_eq!(map.position(&"C".to_string()), 2);
    assert_eq!(map.key_at(0), "A");
    assert_eq!(map.value_at(0), "3");
    assert_eq!(value(&map, "B"), Some("2".to_string()));
}

fn lines_as_std_splits_them(text: &str) -> String {
    let mut out = String::new();
    for line in text.lines() {
        out.push_str(line);
        out.push('\n');
    }
    out
}

#[test]
fn lines_are_split_as_the_standard_library_splits_them() {
    let texts = [
        "", "\n", "\r", "\r\n", "a", "a\r", "a\n", "a\r\n", "a\r\r\n", "\n\r", "x\n\ny", "x\r\n\r\ny\r",
        "\n\n\n", "a\rb\n", "last line\n  ",
    ];
    for text in texts {
        assert_eq!(merge_settings(text, &SettingsMap::new()), lines_as_std_splits_them(text), "{:?}", text);
    }
}

fn settings_as_std_reads_them(text: &str) -> Vec<(String, String)> {
    let mut out: Vec<(String, String)> = Vec::new();
    for line in text.lines() {
        let line = line.trim();
        if line.is_empty() || line.starts_with('#') {
            continue;
        }
        if let Some((key, value)) = line.split_once('=') {
            let key = key.trim().to_string();
            let value = value.trim().to_string();
            match out.iter_mut().find(|pair| pair.0 == key) {
                Some(pair) => pair.1 = value,
                None => out.push((key, value)),
            }
        }
    }
    out
}

#[test]
fn settings_are_read_as_the_standard_library_reads_them() {
    let texts = [
        "A=1\nB=2\n",
        " A = 1 \r\n#c\r\n\r\nB==\r\n",
        "=\n==\n = = \n",
        "#=\n #x=1\nx#=1\n",
        "a=b=c\na =d\n\u{a0}a\u{2002}=\te\u{85}\n",
        "no pair\n=only value\nonly key=\n",
        "k=v\r",
        "\u{feff}k=v\n",
    ];
    for text in texts {
        let map = parse_settings(text);
        let expected = settings_as_std_reads_them(text);
        assert_eq!(map.len(), expected.len(), "{:?}", text);
        for (at, (key, value)) in expected.iter().enumerate() {
            assert_eq!(map.key_at(at), key, "{:?}", text);
            assert_eq!(map.value_at(at), value, "{:?}", text);
        }
    }
}

#[test]
fn merged_settings_are_read_back_and_others_are_kept() {
    let before = "# head\nKEEP = as is \nA=old\nnot a pair\nA=older\n";
    let updates = map_of(&[("A", "new"), ("B", "x=y"), ("", "empty key")]);
    let after = merge_settings(before, &updates);
    assert_eq!(after, "# head\nKEEP = as is \nA=new\nnot a pair\nA=new\nB=x=y\n=empty key\n");
    let read = parse_settings(&after);
    assert_eq!(value(&read, "A"), Some("new".to_string()));
    assert_eq!(value(&read, "B"), Some("x=y".to_string()));
    assert_eq!(value(&read, ""), Some("empty key".to_string()));
    assert_eq!(value(&read, "KEEP"), Some("as is".to_string()));
    assert_eq!(read.len(), 4);
}

#[test]
fn value_with_white_space_around_it_is_read_back_trimmed() {
    let after = merge_settings("", &map_of(&[("A", "  padded  ")]));
    assert_eq!(after, "A=  padded  \n");
    assert_eq!(value(&parse_settings(&after), "A"), Some("padded".to_string()));
}

#[test]
fn absent_file_gives_no_settings() {
    assert_eq!(get_settings(None).len(), 0);
    let map = get_settings(Some("A=1\n"));
    assert_eq!(value(&map, "A"), Some("1".to_string()));
}

#[test]
fn saving_without_a_file_starts_from_nothing() {
    assert_eq!(save_settings(None, &map_of(&[("A", "1"), ("B", "2")])), "A=1\nB=2\n");
    assert_eq!(save_settings(None, &SettingsMap::new()), "");
    assert_eq!(save_settings(Some("# note\nA=1\n"), &map_of(&[("B", "2")])), "# note\nA=1\nB=2\n");
}
