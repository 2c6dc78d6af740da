use ir_bench::ini::{parse_ini_text, IniData};

#[test]
fn parses_keys_values_and_comments() {
    let data = parse_ini_text(
        "[Graphics]\nwidth = 1920 ; pixels\n; a comment line\nheight=1080\r\nbad line\n = no key\nmsaa=4;samples ; more\n",
    );
    assert_eq!(data.value_of("width"), Some("1920".to_string()));
    assert_eq!(data.comment_of("width"), Some("pixels".to_string()));
    assert_eq!(data.value_of("height"), Some("1080".to_string()));
    assert_eq!(data.comment_of("height"), Some(String::new()));
    assert_eq!(data.value_of("msaa"), Some("4".to_string()));
    assert_eq!(data.comment_of("msaa"), Some("samples ; more".to_string()));
    assert_eq!(data.value_of("bad line"), None);
    assert_eq!(data.value_of(""), None);
    assert_eq!(data.len(), 3);
    assert_eq!(data.keys(), vec!["width".to_string(), "height".to_string(), "msaa".to_string()]);
}

#[test]
fn later_assignment_wins() {
    let data = parse_ini_text("a=1 ; first\nb=2\na=3\n");
    assert_eq!(data.value_of("a"), Some("3".to_string()));
    assert_eq!(data.comment_of("a"), Some(String::new()));
    assert_eq!(data.keys(), vec!["a".to_string(), "b".to_string()]);
}

#[test]
fn later_text_overrides_earlier_text() {
    let a = "x=1\ny=2 ; why";
    let b = "y=5\nz=6";
    let joined = parse_ini_text(&format!("{}\n{}", a, b));
    let first = parse_ini_text(a);
    let second = parse_ini_text(b);
    assert_eq!(joined.value_of("x"), first.value_of("x"));
    assert_eq!(joined.value_of("y"), second.value_of("y"));
    assert_eq!(joined.comment_of("y"), second.comment_of("y"));
    assert_eq!(joined.value_of("z"), second.value_of("z"));
    assert_eq!(joined.len(), 3);
}

#[test]
fn empty_text_has_no_keys() {
    let data = parse_ini_text("");
    assert_eq!(data.len(), 0);
    assert!(data.keys().is_empty());
}

#[test]
fn insert_keeps_first_place() {
    let mut data = IniData::new();
    data.insert("k".to_string(), "1".to_string(), String::new());
    data.insert("j".to_string(), "2".to_string(), "c".to_string());
    data.insert("k".to_string(), "3".to_string(), "d".to_string());
    assert_eq!(data.keys(), vec!["k".to_string(), "j".to_string()]);
    assert_eq!(data.get("k"), Some(("3".to_string(), "d".to_string())));
    assert_eq!(data.get("missing"), None);
}
