use clipboard_sanitize::RuleFn;
use clipboard_sanitize::RuleSet;
use clipboard_sanitize::SanitizeRule;
use clipboard_sanitize::fn_rule;
use clipboard_sanitize::register_rule;
use clipboard_sanitize::reset_to_defaults;
use clipboard_sanitize::sanitize_for_copy;
use clipboard_sanitize::sanitize_incoming;
use clipboard_sanitize::set_rules;

#[test]
fn default_rule_strips_glyph() {
    let mut reg = RuleSet::new();
    reset_to_defaults(&mut reg);
    let input = "▌ line one\n▌ line two\nplain";
    let out = sanitize_for_copy(&reg, input);
    assert_eq!(out, "line one\nline two\nplain");
}

#[test]
fn idempotent_on_clean_input() {
    let mut reg = RuleSet::new();
    reset_to_defaults(&mut reg);
    let input = "line one\nline two";
    assert_eq!(sanitize_for_copy(&reg, input), input);
}

#[test]
fn can_register_additional_rule_ordering_respected() {
    let mut reg = RuleSet::new();
    reset_to_defaults(&mut reg);
    // Add rule that uppercases everything AFTER glyph removal.
    register_rule(&mut reg, fn_rule("uppercase", RuleFn::UppercaseAscii));
    let input = "▌ hello";
    assert_eq!(sanitize_for_copy(&reg, input), "HELLO");
}

#[test]
fn replace_rules_custom_pipeline() {
    let mut reg = RuleSet::new();
    set_rules(
        &mut reg,
        vec![
            fn_rule("trim", RuleFn::TrimWhitespace),
            fn_rule("suffix", RuleFn::AppendSuffix(String::from("-X"))),
        ],
    );
    let input = "  hi  ";
    assert_eq!(sanitize_for_copy(&reg, input), "hi-X");
}

#[test]
fn sanitize_incoming_matches_copy_for_now() {
    let mut reg = RuleSet::new();
    reset_to_defaults(&mut reg);
    let input = "▌ abc";
    assert_eq!(sanitize_incoming(&reg, input), sanitize_for_copy(&reg, input));
}

#[test]
fn raw_paste_would_preserve_glyph() {
    let mut reg = RuleSet::new();
    reset_to_defaults(&mut reg);
    let input = "▌ hello world";
    // Simulate raw paste (bypass) by not calling sanitize_incoming.
    // The glyph should remain. Sanitized path removes it.
    assert_eq!(input.starts_with("▌"), true);
    assert_eq!(sanitize_incoming(&reg, input).starts_with("▌"), false);
}

#[test]
fn strips_glyph_without_following_space() {
    let reg = RuleSet::new();
    assert_eq!(sanitize_for_copy(&reg, "▌x\n▌ y"), "x\ny");
}

#[test]
fn glyph_in_the_middle_of_a_line_is_left_alone() {
    let reg = RuleSet::new();
    assert_eq!(sanitize_for_copy(&reg, "a▌b"), "a▌b");
}

#[test]
fn crlf_endings_normalized_when_stripping() {
    let reg = RuleSet::new();
    assert_eq!(sanitize_for_copy(&reg, "▌ a\r\nb"), "a\nb");
}

#[test]
fn fast_path_keeps_text_byte_for_byte() {
    let reg = RuleSet::new();
    // No glyph anywhere: even a trailing newline survives untouched.
    assert_eq!(sanitize_for_copy(&reg, "a\r\nb\n"), "a\r\nb\n");
}

#[test]
fn trailing_newline_dropped_when_stripping() {
    let reg = RuleSet::new();
    assert_eq!(sanitize_for_copy(&reg, "▌ a\n"), "a");
}

#[test]
fn doubled_glyph_loses_one_layer_per_pass() {
    let reg = RuleSet::new();
    let once = sanitize_for_copy(&reg, "▌▌x");
    assert_eq!(once, "▌x");
    assert_eq!(sanitize_for_copy(&reg, &once), "x");
}

#[test]
fn empty_pipeline_is_identity() {
    let mut reg = RuleSet::new();
    set_rules(&mut reg, Vec::new());
    assert_eq!(sanitize_for_copy(&reg, "▌ raw\ttext "), "▌ raw\ttext ");
}

#[test]
fn empty_input_stays_empty() {
    let reg = RuleSet::new();
    assert_eq!(sanitize_for_copy(&reg, ""), "");
}

#[test]
fn uppercase_rule_maps_only_ascii_lowercase() {
    let mut reg = RuleSet::new();
    set_rules(&mut reg, vec![fn_rule("uppercase", RuleFn::UppercaseAscii)]);
    assert_eq!(sanitize_for_copy(&reg, "MiXed 123 ▌!"), "MIXED 123 ▌!");
}

#[test]
fn trim_rule_reports_unchanged_text() {
    let mut reg = RuleSet::new();
    set_rules(&mut reg, vec![fn_rule("trim", RuleFn::TrimWhitespace)]);
    assert_eq!(sanitize_for_copy(&reg, "hi"), "hi");
    assert_eq!(sanitize_for_copy(&reg, " \t hi \r\n"), "hi");
}

#[test]
fn append_order_is_observable() {
    let mut reg = RuleSet::new();
    set_rules(
        &mut reg,
        vec![
            fn_rule("trim", RuleFn::TrimWhitespace),
            fn_rule("suffix", RuleFn::AppendSuffix(String::from("-X"))),
        ],
    );
    let trimmed_first = sanitize_for_copy(&reg, "  hi  ");
    set_rules(
        &mut reg,
        vec![
            fn_rule("suffix", RuleFn::AppendSuffix(String::from("-X"))),
            fn_rule("trim", RuleFn::TrimWhitespace),
        ],
    );
    let suffixed_first = sanitize_for_copy(&reg, "  hi  ");
    assert_eq!(trimmed_first, "hi-X");
    assert_eq!(suffixed_first, "hi  -X");
    assert_ne!(trimmed_first, suffixed_first);
}

#[test]
fn rule_names_are_retrievable() {
    let rule = fn_rule("uppercase", RuleFn::UppercaseAscii);
    assert_eq!(rule.name(), "uppercase");
    let defaults = clipboard_sanitize::default_rules();
    assert_eq!(defaults.len(), 1);
    assert_eq!(defaults[0].name(), "strip_user_prefix_glyph");
}
