use githooks::hooks::android_resource_action::{
    classify_comment, escape_attr, escape_text, format_doc, format_resource_text, try_format_doc,
    CommentType,
    AndroidResourceFormatterAction, INDENT, WRAP_INDENT,
};
use githooks::hooks::{ActionTrait, RunPlan};
use githooks::repo::{GitConfigImpl, Item, MemoryConfig};
use githooks::error::HookError;
use githooks::xml::{parse_xml, XmlDocument, XmlElement, XmlNode};
fn parse(input: &str) -> XmlDocument {
    parse_xml(input).unwrap()
}

fn format(doc: &XmlDocument) -> String {
    format_doc(doc)
}


#[test]
fn test_format_node() {
    let input = r#"<?xml version="1.0" encoding="utf-8"?><!-- Top-level comment --><resources xmlns:android="http://schemas.android.com/apk/res/android" xmlns:app="http://schemas.android.com/apk/res-auto"><!-- A string with escaped characters --><string name="welcome_message">Welcome to &lt;b&gt;MyApp&lt;/b&gt;!</string><!-- A string-array with nested items --><string-array name="days_of_week"><item>Sunday</item><item>Monday</item><item>Tuesday</item><item>Wednesday</item><item>Thursday</item><item>Friday</item><item>Saturday</item></string-array><!-- A plurals element with quantity attributes --><plurals name="number_of_items"><item quantity="zero">No items</item><item quantity="one">One item</item><item quantity="other">%d items</item></plurals><!-- A style with deeply nested items and long attributes --><style name="AppTheme" parent="Theme.MaterialComponents.DayNight.DarkActionBar"><item name="colorPrimary">@color/primary</item><item name="colorPrimaryVariant">@color/primary_variant</item><item name="android:windowBackground">@drawable/bg_main</item></style><!-- A color entry with a comment inline --><color name="primary">#6200EE</color><!-- Primary color --><!-- Dimensions with decimals and comments above --><!-- Spacing used in lists --><dimen name="list_item_spacing">8dp</dimen><!-- Nested elements with attributes that might wrap --><selector><item android:state_pressed="true" android:drawable="@color/primary_dark" /><item android:drawable="@color/primary" /></selector><!-- Include tag example --><include layout="@layout/header" /><!-- Empty element with many attributes --><item name="buttonStyle" type="style" parent="Widget.AppCompat.Button" /><!-- CDATA section example --><string name="html_content"><![CDATA[<html> <body> <h1>Welcome!</h1> </body> </html>]]></string><!-- Multi-attribute element example 1 --><item name="custom_button_style" type="style" parent="Widget.MaterialComponents.Button" /><!-- Multi-attribute element example 2 --><TextView android:id="@+id/sample_text" android:layout_width="match_parent" android:layout_height="wrap_content" android:layout_margin="16dp" android:text="Sample Text" android:textColor="@color/primary" android:textStyle="bold" /><!-- Inline nested element case --><string-array name="single_line_array"><item>OnlyOne</item></string-array><!-- Long attributes with short child inlined --><selector android:layout_width="match_parent" android:layout_height="wrap_content" android:state_enabled="true"><item android:drawable="@color/primary" /></selector><!-- Mixed length children --><string-array name="mixed_length_array"><item>Short</item><item>This is a very long item that might typically be broken into its own line to ensure readability and clarity within the XML formatting context.</item></string-array><!-- Nested elements with comments inside --><plurals name="commented_plural"><!-- Zero case --><item quantity="zero">None</item><!-- Other case with formatting --><item quantity="other">%d items available</item></plurals></resources>"#;
    let doc = parse(input);
    let output = format(&doc);
    println!("{output}");
}

#[test]
fn test_wrap_indent_constants() {
    assert_eq!(INDENT, "    ");
    assert_eq!(WRAP_INDENT, "    ");
    assert_eq!(INDENT.len(), 4);
    assert_eq!(WRAP_INDENT.len(), 4);
}

#[test]
fn test_multiline_attributes_use_wrap_indent() {
    let input = r#"<?xml version="1.0" encoding="utf-8"?><TextView xmlns:android="http://schemas.android.com/apk/res/android" android:id="@+id/very_long_id_name" android:layout_width="match_parent" android:layout_height="wrap_content" android:text="Sample" />"#;
    let doc = parse(input);
    let output = format(&doc);

    // Should contain wrapped attributes with WRAP_INDENT (4 spaces)
    assert!(output.contains("    android:id="));
    assert!(output.contains("    android:layout_width="));
    assert!(output.contains("    android:layout_height="));

    // Should NOT contain double INDENT (8 spaces) for attributes
    assert!(!output.contains("        android:id="));
}

#[test]
fn test_nested_element_indentation() {
    let input = r#"<?xml version="1.0" encoding="utf-8"?><resources><string-array name="test"><item>value</item></string-array></resources>"#;
    let doc = parse(input);
    let output = format(&doc);

    // Nested string-array should use INDENT (4 spaces)
    assert!(output.contains("    <string-array"));

    // Nested item should use 2*INDENT (8 spaces)
    assert!(output.contains("        <item>"));
}

#[test]
fn test_text_content_indentation() {
    let input = r#"<?xml version="1.0" encoding="utf-8"?><resources><string name="test">Long text content that should be indented properly</string></resources>"#;
    let doc = parse(input);
    let output = format(&doc);

    // Text content should be inline for short content
    assert!(output.contains(
        r#"<string name="test">Long text content that should be indented properly</string>"#
    ));
}

#[test]
fn test_inline_vs_multiline_attribute_threshold() {
    // Test short attributes stay inline
    let short_input =
        r#"<?xml version="1.0" encoding="utf-8"?><item name="short" type="style" />"#;
    let doc = parse(short_input);
    let output = format(&doc);

    // Should be inline (no newlines before attributes)
    assert!(output.contains(r#"<item name="short" type="style"/>"#));

    // Test long attributes wrap
    let long_input = r#"<?xml version="1.0" encoding="utf-8"?><TextView xmlns:android="http://schemas.android.com/apk/res/android" android:id="@+id/very_long_identifier_name" android:layout_width="match_parent" android:layout_height="wrap_content" android:text="Very long text content here" />"#;
    let doc_long = parse(long_input);
    let output_long = format(&doc_long);

    // Should wrap (contains newlines before attributes)
    assert!(output_long.contains("\n    android:id="));
}

#[test]
fn test_comment_indentation() {
    let input = r#"<?xml version="1.0" encoding="utf-8"?><resources><!-- Top level comment --><string name="test">value</string></resources>"#;
    let doc = parse(input);
    let output = format(&doc);

    // Comment should use INDENT (4 spaces)
    assert!(output.contains("    <!-- Top level comment -->"));
}

#[test]
fn test_prefix_comment_spacing() {
    let input = r#"<?xml version="1.0" encoding="utf-8"?><resources><string name="first">value</string><!-- Regular comment --><string name="second">value</string></resources>"#;
    let doc = parse(input);
    let output = format(&doc);

    // Should have empty line before comment and be adjacent to next element
    assert!(output.contains("    <string name=\"first\">value</string>\n\n    <!-- Regular comment -->\n    <string name=\"second\">value</string>"));
}

#[test]
fn test_first_position_comment_spacing() {
    let input = r#"<?xml version="1.0" encoding="utf-8"?><resources><!-- First comment --><string name="first">value</string></resources>"#;
    let doc = parse(input);
    let output = format(&doc);

    // First position comment should not have empty line before
    assert!(output.contains(
        "<resources>\n    <!-- First comment -->\n    <string name=\"first\">value</string>"
    ));
}

#[test]
fn test_suffix_comment_spacing() {
    let input = r#"<?xml version="1.0" encoding="utf-8"?><resources><string name="first">value</string><!-- LINT.ThenChange(//path/to/file) --><string name="second">value</string></resources>"#;
    let doc = parse(input);
    let output = format(&doc);

    // Should be adjacent to previous element and have empty line after
    assert!(output.contains("    <string name=\"first\">value</string>\n    <!-- LINT.ThenChange(//path/to/file) -->\n\n    <string name=\"second\">value</string>"));
}

#[test]
fn test_first_position_suffix_comment_spacing() {
    let input = r#"<?xml version="1.0" encoding="utf-8"?><resources><!-- LINT.ThenChange(//path/to/file) --><string name="first">value</string></resources>"#;
    let doc = parse(input);
    let output = format(&doc);

    // First position suffix comment should not have empty line before, but should have empty line after
    assert!(output.contains("<resources>\n    <!-- LINT.ThenChange(//path/to/file) -->\n\n    <string name=\"first\">value</string>"));
}

#[test]
fn test_comment_classification() {
    assert!(matches!(
        classify_comment("Regular comment"),
        CommentType::PrefixComment
    ));
    assert!(matches!(
        classify_comment("LINT.ThenChange(//file)"),
        CommentType::SuffixComment
    ));
    assert!(matches!(
        classify_comment("Another regular comment"),
        CommentType::PrefixComment
    ));
}

#[test]
fn escapes_text_and_attributes() {
    assert_eq!(escape_text("a<b>&c\"d"), "a&lt;b&gt;&amp;c\"d");
    assert_eq!(escape_attr("a<b>&c\"d"), "a&lt;b&gt;&amp;c&quot;d");
    assert_eq!(escape_text("plain"), "plain");
}

#[test]
fn self_closing_and_inline_elements() {
    let doc = parse(r#"<resources><empty/><string name="x">a &amp; b</string></resources>"#);
    let output = format(&doc);
    assert_eq!(
        output,
        "<?xml version=\"1.0\" encoding=\"utf-8\"?>\n<resources>\n    <empty/>\n    <string name=\"x\">a &amp; b</string>\n</resources>\n"
    );
}

#[test]
fn multiline_comment_is_reindented() {
    let doc = parse("<resources><!-- first\n          second\n            third --><a/></resources>");
    let output = format(&doc);
    assert!(output.contains("    <!--\n    first\n    second\n      third\n    -->\n    <a/>\n"));
}

fn element_with_comment(comment: &str) -> XmlDocument {
    XmlDocument {
        children: vec![XmlNode::Element(XmlElement {
            name: "r".to_string(),
            namespace: None,
            namespaces: vec![],
            attributes: vec![],
            children: vec![XmlNode::Comment(comment.to_string())],
        })],
    }
}

#[test]
fn comment_blank_line_shorter_than_indentation_becomes_empty() {
    let doc = element_with_comment("x\n    a\n\n    b");
    assert_eq!(
        try_format_doc(&doc).unwrap(),
        "<?xml version=\"1.0\" encoding=\"utf-8\"?>\n<r>\n    <!--\n    x\n    a\n    \n    b\n    -->\n</r>\n"
    );
}

#[test]
fn comment_indentation_cutting_a_character_cannot_be_formatted() {
    // Two ideographic spaces take six bytes; the last line's two-byte
    // indentation would cut the first of them.
    let doc = element_with_comment("a\n\u{3000}\u{3000}x\n  y");
    assert!(try_format_doc(&doc).is_none());
}

#[test]
fn long_text_goes_on_its_own_line() {
    let long = "word ".repeat(30);
    let input = format!("<resources><string name=\"s\">{}</string></resources>", long.trim());
    let output = format(&parse(&input));
    assert!(output.contains(&format!("    <string name=\"s\">\n        {}\n    </string>\n", long.trim())));
}

#[test]
fn formatter_plans_resource_files_only() {
    let action: AndroidResourceFormatterAction<GitConfigImpl<MemoryConfig>> =
        AndroidResourceFormatterAction::new();
    let items = vec![
        Item::File("app/java/res/values/strings.xml".to_string()),
        Item::File("app/java/res/values/strings.txt".to_string()),
        Item::File("app/res/values/strings.xml".to_string()),
        Item::Dir("app/java/res/values.xml".to_string()),
    ];
    let plan = action.run(&items, &vec![]).unwrap();
    assert_eq!(
        plan,
        RunPlan::FormatResources(vec!["app/java/res/values/strings.xml".to_string()])
    );
    assert_eq!(action.name(), "Android resource files (xml) formatter");
    assert_eq!(action.priority(), 100);
}

#[test]
fn parse_xml_reads_elements_comments_and_text() {
    let doc = parse("<a xmlns:p=\"urn:p\" p:x=\"1 &amp; 2\"><!--c-->t<?pi data?></a>");
    assert_eq!(doc.children.len(), 1);
    match &doc.children[0] {
        XmlNode::Element(e) => {
            assert_eq!(e.name, "a");
            assert_eq!(e.namespace, None);
            assert_eq!(e.namespaces.len(), 1);
            assert!(e
                .namespaces
                .iter()
                .any(|ns| ns.name.as_deref() == Some("p") && ns.uri == "urn:p"));
            assert_eq!(e.attributes.len(), 1);
            assert_eq!(e.attributes[0].name, "x");
            assert_eq!(e.attributes[0].namespace.as_deref(), Some("urn:p"));
            assert_eq!(e.attributes[0].value, "1 & 2");
            assert_eq!(e.children.len(), 3);
            assert!(matches!(&e.children[0], XmlNode::Comment(c) if c == "c"));
            assert!(matches!(&e.children[1], XmlNode::Text(t) if t == "t"));
            assert!(matches!(&e.children[2], XmlNode::Other));
        }
        _ => panic!("expected an element"),
    }
}

#[test]
fn parse_xml_refuses_malformed_text() {
    assert!(matches!(parse_xml("<a><b></a>"), Err(HookError::InvalidXml)));
    assert!(matches!(parse_xml(""), Err(HookError::InvalidXml)));
}

#[test]
fn format_resource_text_formats_a_file() {
    let output = format_resource_text("<resources><string name=\"x\">a &amp; b</string><empty></empty></resources>");
    assert_eq!(
        output,
        Ok("<?xml version=\"1.0\" encoding=\"utf-8\"?>\n<resources>\n    <string name=\"x\">a &amp; b</string>\n    <empty/>\n</resources>\n".to_string())
    );
}

#[test]
fn format_resource_text_errors() {
    assert_eq!(format_resource_text("<a>"), Err(HookError::InvalidXml));
    assert_eq!(
        format_resource_text("<r><!--a\n\u{3000}\u{3000}x\n  y--></r>"),
        Err(HookError::UnformattableComment)
    );
}
