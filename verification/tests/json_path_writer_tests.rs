use segstore::json_path_writer::JsonPathWriter;

#[test]
fn json_path_writer_test() {
    let mut writer = JsonPathWriter::new();
    writer.set_expand_dots(false);

    writer.push("root");
    assert_eq!(writer.as_str(), "root");

    writer.push("child");
    assert_eq!(writer.as_str(), "root\u{1}child");

    writer.pop();
    assert_eq!(writer.as_str(), "root");

    writer.push("k8s.node.id");
    assert_eq!(writer.as_str(), "root\u{1}k8s.node.id");

    writer.set_expand_dots(true);
    writer.pop();
    writer.push("k8s.node.id");
    assert_eq!(writer.as_str(), "root\u{1}k8s\u{1}node\u{1}id");
}

#[test]
fn test_json_path_expand_dots_enabled_pop_segment() {
    let mut json_writer = JsonPathWriter::with_expand_dots(true);
    json_writer.push("hello");
    assert_eq!(json_writer.as_str(), "hello");
    json_writer.push("color.hue");
    assert_eq!(json_writer.as_str(), "hello\x01color\x01hue");
    json_writer.pop();
    assert_eq!(json_writer.as_str(), "hello");
}

#[test]
fn test_json_path_clear_and_set_end() {
    let mut writer = JsonPathWriter::new();
    writer.push("a");
    writer.push("b");
    writer.set_end();
    assert_eq!(writer.as_str(), "a\u{1}b\u{0}");
    writer.clear();
    assert_eq!(writer.as_str(), "");
    writer.push("c");
    assert_eq!(writer.as_str(), "c");
}

#[test]
fn test_json_path_pop_on_empty() {
    let mut writer = JsonPathWriter::new();
    writer.pop();
    assert_eq!(writer.as_str(), "");
}
