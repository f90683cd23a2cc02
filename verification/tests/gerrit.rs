use githooks::hooks::gerrit::{GerritChangeIdAction, TAG_CHANGE_ID};
use githooks::hooks::trailer_map::TrailerMap;
use githooks::hooks::{ActionTrait, RunPlan};
use githooks::repo::{GitConfigImpl, MemoryConfig};

type Gerrit = GerritChangeIdAction<GitConfigImpl<MemoryConfig>>;

#[test]
fn test_should_generate_change_id_never() {
    assert_eq!(
        false,
        Gerrit::should_generate_change_id("false", "Commit Message", &TrailerMap::new())
    );
}

#[test]
fn test_should_generate_change_id_always() {
    assert_eq!(
        true,
        Gerrit::should_generate_change_id("always", "Commit Message", &TrailerMap::new())
    );
}

#[test]
fn test_should_generate_change_id_needed() {
    let mut map = TrailerMap::new();
    map.insert("ChangeId".to_owned(), "1234".to_owned());
    assert_eq!(
        true,
        Gerrit::should_generate_change_id("true", "Commit Message", &map)
    );
}

#[test]
fn test_should_generate_change_id_not_needed_fixup_1() {
    assert_eq!(
        false,
        Gerrit::should_generate_change_id("true", "xxx! Commit Message", &TrailerMap::new())
    );
}

#[test]
fn test_should_generate_change_id_not_needed_fixup_2() {
    assert_eq!(
        false,
        Gerrit::should_generate_change_id("true", "fixup", &TrailerMap::new())
    );
}

#[test]
fn test_should_generate_change_id_not_needed_fixup_3() {
    assert_eq!(
        false,
        Gerrit::should_generate_change_id("true", "fixup: asdf", &TrailerMap::new())
    );
}

#[test]
fn test_should_generate_change_id_not_needed_change_id_exists() {
    let mut map = TrailerMap::new();
    map.insert(TAG_CHANGE_ID.to_owned(), "1234".to_owned());
    assert_eq!(
        false,
        Gerrit::should_generate_change_id("true", "Commit Message", &map)
    );
}

#[test]
fn test_parse_commit_msg_single_line() {
    let (message, trailers) = Gerrit::parse_commit_message("This is a message").unwrap();
    assert_eq!("This is a message", message);
    assert_eq!(0, trailers.len());
}

#[test]
fn test_parse_commit_msg_single_line_with_newlines() {
    let (message, trailers) = Gerrit::parse_commit_message("This is a message\n\n\n\n").unwrap();
    assert_eq!("This is a message", message);
    assert_eq!(0, trailers.len());
}

#[test]
fn test_parse_commit_msg_single_line_with_multilines() {
    let (message, trailers) =
        Gerrit::parse_commit_message("This is a message\n\nThis is a description\n\n").unwrap();
    assert_eq!("This is a message\n\nThis is a description", message);
    assert_eq!(0, trailers.len());
}

#[test]
fn test_parse_commit_msg_single_line_with_trailer() {
    let (message, trailers) =
        Gerrit::parse_commit_message("This is a message\n\nThis is a description\n\nKey: Value")
            .unwrap();
    assert_eq!("This is a message\n\nThis is a description", message);
    assert_eq!(1, trailers.len());
    assert_eq!("Value", trailers.get("Key").unwrap().as_str());
}

#[test]
fn test_parse_commit_msg_single_line_with_trailers() {
    let (message, trailers) = Gerrit::parse_commit_message(
        "This is a message\n\nThis is a description\n\nKey: Value\nKey2: Value2",
    )
    .unwrap();
    assert_eq!("This is a message\n\nThis is a description", message);
    assert_eq!(2, trailers.len());
    assert_eq!("Value", trailers.get("Key").unwrap().as_str());
    assert_eq!("Value2", trailers.get("Key2").unwrap().as_str());
}

#[test]
fn test_parse_commit_msg_single_line_with_bogus_trailer() {
    let (message, trailers) =
        Gerrit::parse_commit_message("This is a message\n\nNot: Trailer\n\nYes: Trailer\n")
            .unwrap();
    assert_eq!("This is a message\n\nNot: Trailer", message);
    assert_eq!(1, trailers.len());
    assert_eq!("Trailer", trailers.get("Yes").unwrap().as_str());
}

#[test]
fn test_parse_commit_msg_title_looks_like_trailer() {
    let (message, trailers) = Gerrit::parse_commit_message("This: Not a trailer\n").unwrap();
    assert_eq!("This: Not a trailer", message);
    assert_eq!(0, trailers.len());
}

#[test]
fn test_parse_commit_msg_bad_format() {
    assert!(!Gerrit::parse_commit_message("Line1\nLine2").is_ok());
}

#[test]
fn trailers_are_compiled_in_key_order() {
    let mut map = TrailerMap::new();
    map.insert("Zeta".to_owned(), "z".to_owned());
    map.insert("Alpha".to_owned(), "a".to_owned());
    map.insert("Mid".to_owned(), "m".to_owned());
    let out = Gerrit::compile_commit_message("Subject", &map);
    assert_eq!(out, "Subject\n\nAlpha: a\nMid: m\nZeta: z\n");
}

#[test]
fn trailer_insert_replaces_value() {
    let mut map = TrailerMap::new();
    map.insert("Key".to_owned(), "one".to_owned());
    map.insert("Key".to_owned(), "two".to_owned());
    assert_eq!(map.len(), 1);
    assert_eq!(map.get("Key").unwrap().as_str(), "two");
    assert!(map.get("Other").is_none());
}

#[test]
fn change_id_is_added_to_message() {
    let out = Gerrit::change_id_message("Subject\n\nBody\n", "true", "abc123").unwrap();
    assert_eq!(out, Some("Subject\n\nBody\n\nChange-Id: Iabc123\n".to_string()));
}

#[test]
fn change_id_not_added_twice() {
    let out = Gerrit::change_id_message("Subject\n\nBody\n\nChange-Id: I1\n", "true", "abc").unwrap();
    assert_eq!(out, None);
}

#[test]
fn change_id_forced_replaces_existing() {
    let out = Gerrit::change_id_message("Subject\n\nChange-Id: I1\n", "always", "abc").unwrap();
    assert_eq!(out, Some("Subject\n\nChange-Id: Iabc\n".to_string()));
}

#[test]
fn change_id_rejects_bad_message() {
    assert!(Gerrit::change_id_message("Line1\nLine2", "true", "abc").is_err());
}

#[test]
fn change_id_hash_is_git_blob_id() {
    // `git hash-object` of the blob "hello" (no newline).
    let h = Gerrit::generate_hash("he", "l", "l", "o").unwrap();
    assert_eq!(h, "b6fc4c620b67d95f953a5c1c1230aaab5db5a1b0");
    assert_eq!(h.len(), 40);
}

#[test]
fn change_id_run_plans_message_file() {
    let action = Gerrit::new();
    let plan = action.run(&[], &vec!["msg.txt".to_string()]).unwrap();
    assert_eq!(plan, RunPlan::GenerateChangeId("msg.txt".to_string()));
}

#[test]
fn parse_gives_back_compiled_message() {
    let mut trailers = TrailerMap::new();
    trailers.insert("Signed-off-by".to_owned(), "Jane Doe <jane@example.com>".to_owned());
    trailers.insert("Bug".to_owned(), "1234".to_owned());
    trailers.insert("Change-Id".to_owned(), "I0123".to_owned());
    let message = "Subject line\n\nBody text.\nMore body text.";
    let compiled = Gerrit::compile_commit_message(message, &trailers);
    let (text, parsed) = Gerrit::parse_commit_message(&compiled).unwrap();
    assert_eq!(text, message);
    assert_eq!(parsed.len(), 3);
    for i in 0..trailers.len() {
        let (k, v) = trailers.entry(i);
        assert_eq!(parsed.get(k), Some(v));
    }
}
