use system_id::config::encode_config;
use system_id::config::parse_config;
use system_id::config::Config;
use system_id::lifecycle::config_path_for;
use system_id::lifecycle::line_decision;
use system_id::lifecycle::resolve_with_input;
use system_id::lifecycle::ResolveResult;
use system_id::system_id::SystemId;

#[test]
fn default_record_encodes_to_fixed_json() {
    let c = Config::default();
    assert_eq!(encode_config(&c), "{\"sync_directory\":\"\"}");
}

#[test]
fn encoding_escapes_like_the_stored_format() {
    let c = Config::new("a\"b\\c\n\t\u{1}".to_string());
    assert_eq!(
        encode_config(&c),
        "{\"sync_directory\":\"a\\\"b\\\\c\\n\\t\\u0001\"}"
    );
}

#[test]
fn parse_reads_back_what_encode_wrote() {
    for dir in [
        "",
        "plain",
        "/home/user/sync dir",
        "quotes \" and \\ slashes",
        "controls \u{8}\t\n\u{c}\r\u{1f}\u{0}",
        "unicode \u{e9}\u{4e16}\u{1f600}",
    ] {
        let c = Config::new(dir.to_string());
        let text = encode_config(&c);
        let parsed = parse_config(&text).expect("round trip must parse");
        assert_eq!(parsed.sync_directory().as_str(), dir);
    }
}

#[test]
fn parse_accepts_all_standard_escapes() {
    let parsed = parse_config("{\"sync_directory\":\"a\\/b\\u0041\\r\\f\\b\"}").unwrap();
    assert_eq!(parsed.sync_directory().as_str(), "a/bA\r\u{c}\u{8}");
}

#[test]
fn parse_rejects_malformed_entries() {
    for bad in [
        "",
        "{}",
        "{\"sync_directory\":\"\"",
        "{\"sync_directory\":\"",
        "{\"sync_directory\":\"\"}}",
        "{\"other_field\":\"\"}",
        "{\"sync_directory\":\"\\x\"}",
        "{\"sync_directory\":\"\\u00\"}",
        "{\"sync_directory\":\"\\u12ab\"}",
        "{\"sync_directory\":\"\t\"}",
        "not json at all",
    ] {
        assert!(parse_config(bad).is_none(), "accepted: {bad:?}");
    }
}

#[test]
fn line_decisions_trim_and_accept_only_y_or_n() {
    assert_eq!(line_decision("y"), Some(true));
    assert_eq!(line_decision("y\n"), Some(true));
    assert_eq!(line_decision("  y \r\n"), Some(true));
    assert_eq!(line_decision("n"), Some(false));
    assert_eq!(line_decision("n\n"), Some(false));
    assert_eq!(line_decision(""), None);
    assert_eq!(line_decision("\n"), None);
    assert_eq!(line_decision("yes"), None);
    assert_eq!(line_decision("x"), None);
    assert_eq!(line_decision("y n"), None);
}

#[test]
fn invalid_lines_then_yes_creates() {
    let lines = vec!["x\n".to_string(), "huh\n".to_string(), "y\n".to_string()];
    match resolve_with_input(None, false, &lines) {
        ResolveResult::Created(c) => assert_eq!(c.sync_directory().as_str(), ""),
        _ => panic!("expected creation after the first valid yes"),
    }
}

#[test]
fn invalid_lines_then_no_declines() {
    let lines = vec!["x\n".to_string(), "n\n".to_string()];
    match resolve_with_input(None, false, &lines) {
        ResolveResult::Declined => {}
        _ => panic!("expected decline, with nothing written"),
    }
}

#[test]
fn auto_confirm_creates_default_record() {
    let lines: Vec<String> = Vec::new();
    match resolve_with_input(None, true, &lines) {
        ResolveResult::Created(c) => assert_eq!(c.sync_directory().as_str(), ""),
        _ => panic!("expected creation of the default record"),
    }
}

#[test]
fn existing_entry_loads_without_rewriting() {
    let stored = encode_config(&Config::new("/data/sync".to_string()));
    let lines: Vec<String> = Vec::new();
    for auto_confirm in [false, true] {
        match resolve_with_input(Some(&stored), auto_confirm, &lines) {
            ResolveResult::Loaded(c) => assert_eq!(c.sync_directory().as_str(), "/data/sync"),
            _ => panic!("expected the stored record back, with no write"),
        }
    }
}

#[test]
fn malformed_entry_is_fatal_not_repaired() {
    let stored = "{\"sync_directory\": 3}".to_string();
    let lines: Vec<String> = Vec::new();
    match resolve_with_input(Some(&stored), true, &lines) {
        ResolveResult::MalformedEntry => {}
        _ => panic!("expected a malformed-entry failure"),
    }
}

#[test]
fn exhausted_answers_give_no_decision() {
    let lines = vec!["x\n".to_string()];
    match resolve_with_input(None, false, &lines) {
        ResolveResult::NoDecision => {}
        _ => panic!("expected no decision when answers run out"),
    }
}

#[test]
fn config_path_is_directory_id_extension() {
    let id = SystemId {
        id: "ab12".repeat(16),
    };
    let path = config_path_for(&id);
    assert_eq!(path, format!("system-configs/{}.json", "ab12".repeat(16)));
}
