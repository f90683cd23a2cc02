use githooks::hooks::commit_message_reflow_action::{normalize_trailer_key, LINE_LIMIT};
use githooks::hooks::{ActionTrait, CommitMessageReflowAction, RunPlan};
use githooks::repo::{GitConfigImpl, MemoryConfig};

type Reflow = CommitMessageReflowAction<GitConfigImpl<MemoryConfig>>;

#[test]
fn test_wrap_paragraph_short() {
    let lines = Reflow::wrap_paragraph("Short text", 80);
    assert_eq!(lines, vec!["Short text".to_string()]);
}

#[test]
fn test_wrap_paragraph_wraps_at_width() {
    let text = "one two three four five six seven eight nine ten eleven twelve thirteen";
    let lines = Reflow::wrap_paragraph(text, 20);
    assert!(lines.iter().all(|l| l.len() <= 20));
    assert_eq!(lines.join(" "), text);
}

#[test]
fn test_wrap_paragraph_overlong_word_not_split() {
    let text = "a-very-long-word-that-does-not-fit-within-the-limit-by-itself-at-all";
    let lines = Reflow::wrap_paragraph(text, 10);
    assert_eq!(lines, vec![text.to_string()]);
}

#[test]
fn test_reflow_paragraphs_preserves_bullets() {
    let lines = vec![
        "This is a long sentence that should be reflowed because it has",
        "no bullet marker at the start of the line at all really.",
        "",
        "- bullet one stays exactly as written even if quite long indeed",
        "- bullet two",
        "* star bullets are recognised too",
        "1. numbered bullets as well",
    ];
    let out = Reflow::reflow_paragraphs(&lines, 80);

    assert!(out.contains(&"- bullet one stays exactly as written even if quite long indeed".to_string()));
    assert!(out.contains(&"- bullet two".to_string()));
    assert!(out.contains(&"* star bullets are recognised too".to_string()));
    assert!(out.contains(&"1. numbered bullets as well".to_string()));
    assert!(out.contains(&String::new()));
}

#[test]
fn test_reflow_paragraphs_does_not_merge_across_blank_line() {
    let lines = vec!["Paragraph one.", "", "Paragraph two."];
    let out = Reflow::reflow_paragraphs(&lines, 80);
    assert_eq!(out, vec!["Paragraph one.", "", "Paragraph two."]);
}

#[test]
fn test_reflow_commit_message_keeps_long_first_line() {
    let first_line = "x".repeat(120);
    let content = format!("{}\n", first_line);
    let result = Reflow::reflow_commit_message(&content);
    assert_eq!(result, format!("{}\n", first_line));
}

#[test]
fn test_reflow_commit_message_wraps_body() {
    let body = "word ".repeat(40);
    let content = format!("Subject\n\n{}\n", body.trim());
    let result = Reflow::reflow_commit_message(&content);

    for line in result.lines() {
        assert!(line.chars().count() <= LINE_LIMIT, "line too long: {}", line);
    }
}

#[test]
fn test_reflow_commit_message_does_not_merge_paragraphs() {
    let content = "Subject\n\nFirst paragraph stays separate.\n\nSecond paragraph stays separate too.\n";
    let result = Reflow::reflow_commit_message(content);
    assert_eq!(
        result,
        "Subject\n\nFirst paragraph stays separate.\n\nSecond paragraph stays separate too.\n"
    );
}

#[test]
fn test_reflow_commit_message_preserves_trailers_verbatim() {
    let long_trailer_value = "y".repeat(120);
    let content = format!(
        "Subject\n\nBody text here.\n\nChange-Id: I123\nLink: {}\n",
        long_trailer_value
    );
    let result = Reflow::reflow_commit_message(&content);

    assert!(result.contains("Change-Id: I123"));
    assert!(result.contains(&format!("Link: {}", long_trailer_value)));
}

#[test]
fn test_reflow_commit_message_fixes_invalid_trailer_syntax() {
    let content = "Subject\n\nBody text here.\n\nCHANGE-ID=I123\nReviewed-by: Jane Doe\n";
    let result = Reflow::reflow_commit_message(content);

    assert!(result.contains("Change-id: I123"));
    assert!(result.contains("Reviewed-by: Jane Doe"));
    assert!(!result.contains("CHANGE-ID=I123"));
}

#[test]
fn test_reflow_commit_message_fixes_invalid_trailer_keeps_value_unwrapped() {
    let long_value = "z".repeat(120);
    let content = format!("Subject\n\nBody text here.\n\nLink={}\n", long_value);
    let result = Reflow::reflow_commit_message(&content);

    assert!(result.contains(&format!("Link: {}", long_value)));
}

#[test]
fn test_reflow_commit_message_preserves_bullets_untouched() {
    let content = "Subject\n\n- first bullet point\n- second bullet point\n";
    let result = Reflow::reflow_commit_message(content);
    assert_eq!(
        result,
        "Subject\n\n- first bullet point\n- second bullet point\n"
    );
}

#[test]
fn test_reflow_commit_message_strips_comment_lines_anywhere() {
    let content = "Subject\n\n# stray comment mid-message\nBody.\n\n# Please enter the commit message.\n# On branch main\n";
    let result = Reflow::reflow_commit_message(content);
    assert_eq!(result, "Subject\n\nBody.\n");
}

#[test]
fn test_reflow_commit_message_no_body_no_trailers() {
    let content = "Subject only\n";
    let result = Reflow::reflow_commit_message(content);
    assert_eq!(result, "Subject only\n");
}

// ---------------------------------------------------------------------------
// Further cases

#[test]
fn reflow_wraps_exactly_at_width() {
    // "aaaa bbbb" is 9 bytes: fits in 9, not in 8.
    assert_eq!(Reflow::wrap_paragraph("aaaa bbbb", 9), vec!["aaaa bbbb".to_string()]);
    assert_eq!(
        Reflow::wrap_paragraph("aaaa bbbb", 8),
        vec!["aaaa".to_string(), "bbbb".to_string()]
    );
}

#[test]
fn reflow_wrap_counts_bytes() {
    // "éé" is 4 bytes: "éé éé" is 9 bytes and does not fit in 8.
    assert_eq!(
        Reflow::wrap_paragraph("éé éé", 8),
        vec!["éé".to_string(), "éé".to_string()]
    );
}

#[test]
fn reflow_wrap_of_blank_text_is_empty() {
    assert!(Reflow::wrap_paragraph("  \t \n ", 10).is_empty());
}

#[test]
fn reflow_empty_message_is_returned_as_is() {
    assert_eq!(Reflow::reflow_commit_message(""), "");
    assert_eq!(Reflow::reflow_commit_message("# only a comment\n"), "# only a comment\n");
}

#[test]
fn reflow_joins_short_lines_of_a_paragraph() {
    let content = "Subject\n\nthis is\nsplit over\nlines\n";
    assert_eq!(
        Reflow::reflow_commit_message(content),
        "Subject\n\nthis is split over lines\n"
    );
}

#[test]
fn reflow_keeps_trailers_in_order_after_body() {
    let content = "Subject\n\nBody.\nSigned-off-by: A\nBug=123\n";
    assert_eq!(
        Reflow::reflow_commit_message(content),
        "Subject\n\nBody.\n\nSigned-off-by: A\nBug: 123\n"
    );
}

#[test]
fn reflow_message_of_trailers_only() {
    let content = "Subject\n\nChange-Id: I1\n";
    assert_eq!(Reflow::reflow_commit_message(content), "Subject\n\nChange-Id: I1\n");
}

#[test]
fn reflow_crlf_lines() {
    let content = "Subject\r\n\r\nBody one\r\nbody two\r\n";
    assert_eq!(Reflow::reflow_commit_message(content), "Subject\n\nBody one body two\n");
}

#[test]
fn normalize_trailer_key_cases() {
    assert_eq!(normalize_trailer_key("SIGNED-OFF-BY"), "Signed-off-by");
    assert_eq!(normalize_trailer_key("signed_off_by"), "Signed-off-by");
    assert_eq!(normalize_trailer_key(""), "");
    assert_eq!(normalize_trailer_key("ß"), "SS");
}

#[test]
fn reflow_fixes_underscored_trailer_key() {
    let content = "Subject\n\nBody text here.\n\nsigned_off_by=Jane Doe\n";
    let result = Reflow::reflow_commit_message(content);
    assert_eq!(result, "Subject\n\nBody text here.\n\nSigned-off-by: Jane Doe\n");
}

#[test]
fn reflow_run_plans() {
    let action = Reflow::new();
    assert_eq!(action.run(&[], &vec!["msg".to_string()]), Ok(RunPlan::Nothing));
}
