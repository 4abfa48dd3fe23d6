use pretty_xmlish::{Pretty, PrettyConfig, XmlNode};

fn text(s: &str) -> Pretty {
    Pretty::Text(s.to_string())
}

fn plain_config(width: usize) -> PrettyConfig {
    let mut config = PrettyConfig::default();
    config.width = width;
    config.need_boundaries = false;
    config
}

#[test]
fn framed_single_line_text() {
    let mut config = PrettyConfig::default();
    let pretty = text("Hello, world!");
    let mut out = String::new();
    config.ascii(&mut out, &pretty);
    assert_eq!(out, "+---------------+\n| Hello, world! |\n+---------------+");
}

#[test]
fn framed_single_line_text_unicode() {
    let mut config = PrettyConfig::default();
    let pretty = text("Hello, world!");
    let mut out = String::new();
    let w = config.unicode(&mut out, &pretty);
    assert_eq!(w, 13);
    assert_eq!(out, "+---------------+\n| Hello, world! |\n+---------------+");
}

#[test]
fn small_array_one_line_width() {
    let mut config = plain_config(120);
    let pretty = Pretty::Array(vec![text("a"), text("b")]);
    let mut out = String::new();
    let w = config.unicode(&mut out, &pretty);
    assert_eq!(out, "[ a, b ]");
    assert_eq!(w, 8);
}

#[test]
fn record_one_line_with_ample_width() {
    let mut config = plain_config(120);
    let pretty = Pretty::childless_record("Point", vec![("x", text("1")), ("y", text("2"))]);
    let mut out = String::new();
    config.ascii(&mut out, &pretty);
    assert_eq!(out, "Point { x: 1, y: 2 }");
}

#[test]
fn record_breaks_when_too_narrow() {
    let mut config = plain_config(5);
    let pretty = Pretty::childless_record("Point", vec![("x", text("1")), ("y", text("2"))]);
    let mut out = String::new();
    config.ascii(&mut out, &pretty);
    assert_eq!(out, "Point {\n    x: 1,\n    y: 2\n}");
}

#[test]
fn last_field_gets_corner_connector() {
    let mut config = plain_config(5);
    let songs = Pretty::Array(vec![text("A"), text("B")]);
    let pretty = Pretty::childless_record("Info", vec![("Songs", songs)]);
    let mut out = String::new();
    config.unicode(&mut out, &pretty);
    assert_eq!(
        out,
        "Info\n\u{2514}\u{2500}\u{2500} Songs:\n    \u{250C}\u{2500}\u{2500} A\n    \u{2514}\u{2500}\u{2500} B"
    );
    let songs_line = out.lines().find(|l| l.contains("Songs")).unwrap();
    assert!(songs_line.starts_with('\u{2514}'));
    assert!(!songs_line.contains('\u{251C}'));
}

#[test]
fn empty_array_is_brackets_at_any_width() {
    for width in [0usize, 1, 120] {
        let mut config = plain_config(width);
        let mut out = String::new();
        config.ascii(&mut out, &Pretty::Array(vec![]));
        assert_eq!(out, "[]");
        let mut config = plain_config(width);
        let mut out = String::new();
        config.unicode(&mut out, &Pretty::Array(vec![]));
        assert_eq!(out, "[]");
    }
}

#[test]
fn framed_lines_share_one_width() {
    let mut config = PrettyConfig::default();
    config.width = 5;
    let pretty = Pretty::childless_record("Point", vec![("x", text("1")), ("y", text("2"))]);
    let mut out = String::new();
    config.ascii(&mut out, &pretty);
    let lines: Vec<&str> = out.lines().collect();
    assert_eq!(lines.len(), 6);
    for line in &lines {
        assert_eq!(line.chars().count(), lines[0].chars().count());
    }
}

#[test]
fn framed_lines_share_one_width_unicode() {
    let mut config = PrettyConfig::default();
    config.width = 5;
    let pretty = Pretty::fieldless_record("Root", vec![text("a"), text("b")]);
    let mut out = String::new();
    config.unicode(&mut out, &pretty);
    let lines: Vec<&str> = out.lines().collect();
    assert_eq!(lines.len(), 5);
    for line in &lines {
        assert_eq!(line.chars().count(), lines[0].chars().count());
    }
}

#[test]
fn children_get_tee_then_corner() {
    let mut config = plain_config(120);
    let pretty = Pretty::fieldless_record("Root", vec![text("a"), text("b")]);
    let mut out = String::new();
    config.unicode(&mut out, &pretty);
    assert_eq!(
        out,
        "Root\n\u{251C}\u{2500}\u{2500} a\n\u{2514}\u{2500}\u{2500} b"
    );
}

#[test]
fn unicode_collapses_single_element_array() {
    let mut config = plain_config(0);
    let pretty = Pretty::Array(vec![text("abc")]);
    let mut out = String::new();
    config.unicode(&mut out, &pretty);
    assert_eq!(out, "abc");
}

#[test]
fn ascii_keeps_single_element_array_brackets() {
    let mut config = plain_config(0);
    let pretty = Pretty::Array(vec![text("abc")]);
    let mut out = String::new();
    config.ascii(&mut out, &pretty);
    assert_eq!(out, "[ abc ]");
}

#[test]
fn reduced_spacing_drops_inner_padding() {
    let mut config = plain_config(120);
    config.reduced_spaces = true;
    let mut out = String::new();
    config.ascii(&mut out, &Pretty::Array(vec![text("a"), text("b")]));
    assert_eq!(out, "[a, b]");

    let mut config = plain_config(120);
    config.reduced_spaces = true;
    let pretty = Pretty::childless_record("Point", vec![("x", text("1")), ("y", text("2"))]);
    let mut out = String::new();
    config.ascii(&mut out, &pretty);
    assert_eq!(out, "Point {x: 1, y: 2}");
}

#[test]
fn one_line_string_of_nested_value() {
    let inner = Pretty::Array(vec![text("1"), text("2")]);
    let pretty = Pretty::childless_record("Pair", vec![("xs", inner), ("tag", text("t"))]);
    assert_eq!(pretty.to_one_line_string(), "Pair { xs: [ 1, 2 ], tag: t }");
}

#[test]
fn one_line_string_skips_children() {
    let pretty = Pretty::fieldless_record("R", vec![text("x")]);
    assert_eq!(pretty.to_one_line_string(), "R");
}

#[test]
fn has_children_sees_nested_records() {
    let leafy = Pretty::childless_record("L", vec![("k", text("v"))]);
    assert!(!leafy.has_children());
    let parent = Pretty::fieldless_record("P", vec![text("c")]);
    assert!(parent.has_children());
    let through_field = Pretty::childless_record("Q", vec![("inner", parent)]);
    assert!(through_field.has_children());
    assert!(!text("t").has_children());
    assert!(!Pretty::Array(vec![text("a")]).has_children());
}

#[test]
fn list_of_strings_builds_text_leaves() {
    let words = vec!["v1", "v2", "v3"];
    let pretty = Pretty::list_of_strings(&words);
    assert_eq!(pretty.to_one_line_string(), "[ v1, v2, v3 ]");
}

#[test]
fn xml_node_constructors() {
    let node = XmlNode::new(
        "N".to_string(),
        vec![("k".to_string(), text("v"))],
        vec![],
    );
    assert!(!node.has_children());
    let simple = XmlNode::simple_record("M", vec![("a", text("b"))], vec![text("c")]);
    assert!(simple.has_children());
    assert_eq!(Pretty::Record(simple).to_one_line_string(), "M { a: b }");
}

#[test]
fn width_grows_back_on_second_pass() {
    // The first pass breaks the record; the second pass, run at the
    // discovered width, keeps the layout stable: a third measurement at
    // the same width changes nothing (the reported width is unchanged).
    let mut config = plain_config(5);
    let pretty = Pretty::childless_record("Point", vec![("x", text("1")), ("y", text("2"))]);
    let mut out1 = String::new();
    config.ascii(&mut out1, &pretty);
    let settled = config.width;
    let mut config2 = plain_config(settled);
    let mut out2 = String::new();
    config2.ascii(&mut out2, &pretty);
    assert_eq!(config2.width, settled);
    assert_eq!(out1, out2);
}

#[test]
fn nested_plan_demo_unicode() {
    let scan = Pretty::childless_record(
        "Scan",
        vec![("table", text("t1")), ("columns", Pretty::list_of_strings(&vec!["v1", "v2"]))],
    );
    let exchange = Pretty::simple_record(
        "Exchange",
        vec![("order", Pretty::Array(vec![])), ("dist", text("Single"))],
        vec![scan],
    );
    let mut config = plain_config(120);
    let mut out = String::new();
    config.unicode(&mut out, &exchange);
    assert_eq!(
        out,
        "Exchange { order: [], dist: Single }\n\u{2514}\u{2500}\u{2500} Scan { table: t1, columns: [ v1, v2 ] }"
    );
}

#[test]
fn duplicate_keys_print_twice() {
    let pretty = Pretty::childless_record("D", vec![("k", text("1")), ("k", text("2"))]);
    assert_eq!(pretty.to_one_line_string(), "D { k: 1, k: 2 }");
}

#[test]
fn empty_text_leaf_keeps_separators() {
    let pretty = Pretty::Array(vec![text(""), text("b")]);
    assert_eq!(pretty.to_one_line_string(), "[ , b ]");
}

#[test]
fn bare_record_is_just_its_name() {
    let mut config = plain_config(120);
    let pretty = Pretty::fieldless_record("Nil", vec![]);
    let mut out = String::new();
    config.ascii(&mut out, &pretty);
    assert_eq!(out, "Nil");
}

#[test]
fn reduced_spacing_tightens_connectors() {
    let mut config = plain_config(120);
    config.reduced_spaces = true;
    let pretty = Pretty::fieldless_record("Root", vec![text("a"), text("b")]);
    let mut out = String::new();
    config.unicode(&mut out, &pretty);
    assert_eq!(
        out,
        "Root\n\u{251C}\u{2500}\u{2500}a\n\u{2514}\u{2500}\u{2500}b"
    );
}
