use cursed_lint::lexer::{lex, Token};
use cursed_lint::matcher::{check_match, find_matches};
use cursed_lint::rules::{load_rules, Rule, RuleError, RuleSet};

fn values(tokens: &[Token]) -> Vec<String> {
    tokens.iter().map(|t| t.value.clone()).collect()
}

fn lines(tokens: &[Token]) -> Vec<usize> {
    tokens.iter().map(|t| t.line).collect()
}

#[test]
fn lex_everything() {
    assert_eq!(
        values(&lex("  foo \t \n\r\t bar^(3.14)foo \"str!lit eral \" '\"' ")),
        vec![
            "foo",
            "bar",
            "^",
            "(",
            "3.14",
            ")",
            "foo",
            "\"str!lit eral \"",
            "'\"'",
        ],
    );
}

#[test]
fn test_literal() {
    let tokens = lex("foo\n\tbar\t3.14   baz   a");
    let pattern = lex("foo bar 3.14 baz");
    let matched = check_match(&tokens, &pattern).expect("should match");
    assert_eq!(values(matched), values(&lex("foo bar 3.14 baz")));
}

#[test]
fn test_any_identifier() {
    let tokens = lex("foo\n\tbar\t3.14   baz   a");
    let pattern = lex("foo _ 3.14 baz");
    let matched = check_match(&tokens, &pattern).expect("should match");
    assert_eq!(values(matched), values(&lex("foo bar 3.14 baz")));
}

#[test]
fn test_any_identifier_not_matching() {
    let tokens = lex("foo\n\tbar\t3.14   baz   a");
    let pattern = lex("foo bar _ baz");
    assert!(check_match(&tokens, &pattern).is_none());
}

#[test]
fn test_any_token() {
    let tokens = lex("foo\n\tbar\t3.14   baz   a");
    let pattern = lex("foo bar __ baz");
    let matched = check_match(&tokens, &pattern).expect("should match");
    assert_eq!(values(matched), values(&lex("foo bar 3.14 baz")));
}

#[test]
fn test_any_token_sequence() {
    let tokens = lex("foo\n\tbar\t3.14   baz   a");
    let pattern = lex("foo ___ baz");
    let matched = check_match(&tokens, &pattern).expect("should match");
    assert_eq!(values(matched), values(&lex("foo bar 3.14 baz")));
}

#[test]
fn test_any_token_sequence_empty() {
    let tokens = lex("foo\n\tbar\t3.14   baz   a");
    let pattern = lex("foo bar ___ 3.14 baz");
    let matched = check_match(&tokens, &pattern).expect("should match");
    assert_eq!(values(matched), values(&lex("foo bar 3.14 baz")));
}

#[test]
fn lex_empty_and_whitespace_only() {
    assert!(lex("").is_empty());
    assert!(lex("   \t  \r\n \n\t").is_empty());
}

#[test]
fn lex_category_priority() {
    assert_eq!(values(&lex("foo123")), vec!["foo123"]);
    assert_eq!(values(&lex(".5")), vec![".5"]);
    assert_eq!(values(&lex("3.14")), vec!["3.14"]);
}

#[test]
fn lex_line_numbers() {
    let tokens = lex("foo\nbar baz\n\n.5");
    assert_eq!(values(&tokens), vec!["foo", "bar", "baz", ".5"]);
    assert_eq!(lines(&tokens), vec![1, 2, 2, 4]);
}

#[test]
fn lex_comments() {
    assert_eq!(values(&lex("x // rest of line ")), vec!["x", "// rest of line "]);
    // A block comment runs to the last `*/` on its line.
    assert_eq!(values(&lex("/* a */ x /* b */")), vec!["/* a */ x /* b */"]);
    // An unclosed block comment is not a comment at all.
    assert_eq!(values(&lex("/* a")), vec!["/", "*", "a"]);
}

#[test]
fn lex_unterminated_string() {
    // The quote cannot start a literal that never closes, so it stands alone.
    assert_eq!(values(&lex("\"abc")), vec!["\"", "abc"]);
    assert_eq!(values(&lex("\"a\\\"")), vec!["\"", "a", "\\", "\""]);
}

#[test]
fn lex_numbers_with_word_chars() {
    assert_eq!(values(&lex("0xFF 1_000 1'2.3'4")), vec!["0xFF", "1_000", "1'2.3'4"]);
    assert_eq!(values(&lex("3.")), vec!["3."]);
    assert_eq!(values(&lex("a.5")), vec!["a", ".5"]);
}

#[test]
fn retokenize_after_joining_with_spaces() {
    let text = "foo  bar+1\n\t.5 3.14\n  x_y(z,w)";
    let first = values(&lex(text));
    let joined = first.join(" ");
    let second = values(&lex(&joined));
    assert_eq!(first, second);
}

#[test]
fn lex_carriage_return_line_endings() {
    let tokens = lex("x // note\r\ny\r\n");
    assert_eq!(values(&tokens), vec!["x", "// note", "y"]);
    assert_eq!(lines(&tokens), vec![1, 1, 2]);
}

#[test]
fn load_rules_strips_carriage_return_from_names() {
    let rules = load_rules("a rule\r\n  foo bar\r\n").expect("well-formed rule text");
    assert_eq!(rules.rules.len(), 1);
    assert_eq!(rules.rules[0].name, "a rule");
    assert_eq!(values(&rules.rules[0].patterns[0]), vec!["foo", "bar"]);
}

#[test]
fn load_rules_pattern_before_name_fails() {
    assert!(matches!(
        load_rules("  foo bar\nrule name"),
        Err(RuleError::PatternBeforeName)
    ));
}

#[test]
fn load_rules_empty_rule_fails() {
    assert!(matches!(
        load_rules("first rule\nsecond rule\n  foo\n"),
        Err(RuleError::RuleWithoutPatterns)
    ));
    assert!(matches!(
        load_rules("only rule\n"),
        Err(RuleError::RuleWithoutPatterns)
    ));
}

#[test]
fn load_rules_run_wildcard_needs_anchor() {
    assert!(matches!(
        load_rules("rule\n  foo ___\n"),
        Err(RuleError::RunWildcardAtEnd)
    ));
    assert!(matches!(
        load_rules("rule\n  foo ___ __ bar\n"),
        Err(RuleError::RunWildcardBeforeWildcard)
    ));
}

#[test]
fn load_rules_reads_names_and_patterns() {
    let rules = load_rules(
        "# a comment line\n\nno magic numbers\n  = 42 ;\n  = 13 ;\nno shouting\n  AAA\n",
    )
    .expect("well-formed rule text");
    assert_eq!(rules.rules.len(), 2);
    assert_eq!(rules.rules[0].name, "no magic numbers");
    assert_eq!(rules.rules[0].patterns.len(), 2);
    assert_eq!(values(&rules.rules[0].patterns[0]), vec!["=", "42", ";"]);
    assert_eq!(rules.rules[1].name, "no shouting");
    assert_eq!(values(&rules.rules[1].patterns[0]), vec!["AAA"]);
}

#[test]
fn find_matches_no_rules_is_empty() {
    let empty = RuleSet { rules: vec![] };
    assert!(find_matches(&lex(""), &empty).is_empty());
    assert!(find_matches(&lex("one"), &empty).is_empty());
    assert!(find_matches(&lex("a b c d e f"), &empty).is_empty());
}

#[test]
fn find_matches_reports_rule_and_span() {
    let rules = load_rules("watch this\n  foo ___ baz\n").expect("well-formed rule text");
    let tokens = lex("foo bar 3.14 baz a");
    let warnings = find_matches(&tokens, &rules);
    assert_eq!(warnings.len(), 1);
    assert_eq!(warnings[0].description, "watch this");
    assert_eq!(values(warnings[0].tokens), vec!["foo", "bar", "3.14", "baz"]);
    assert_eq!(warnings[0].tokens[0].line, 1);
}

#[test]
fn find_matches_every_offset_and_order() {
    let rules = load_rules("pair\n  a a\n").expect("well-formed rule text");
    let tokens = lex("a a a");
    let warnings = find_matches(&tokens, &rules);
    // Offsets 0 and 1 both match; the last token is never a starting offset.
    assert_eq!(warnings.len(), 2);
    assert_eq!(values(warnings[0].tokens), vec!["a", "a"]);
    assert_eq!(values(warnings[1].tokens), vec!["a", "a"]);
}

#[test]
fn find_matches_skips_last_offset() {
    // A single-token pattern can match anywhere but at the final token.
    let rules = load_rules("lone b\n  b\n").expect("well-formed rule text");
    assert_eq!(find_matches(&lex("a b"), &rules).len(), 0);
    assert_eq!(find_matches(&lex("b a"), &rules).len(), 1);
    assert_eq!(find_matches(&lex("b"), &rules).len(), 0);
}

#[test]
fn find_matches_multiple_rules_in_order() {
    let rules =
        load_rules("first\n  x __\nsecond\n  x y\n").expect("well-formed rule text");
    let tokens = lex("x y z");
    let warnings = find_matches(&tokens, &rules);
    assert_eq!(warnings.len(), 2);
    assert_eq!(warnings[0].description, "first");
    assert_eq!(warnings[1].description, "second");
    let single = Rule {
        name: String::from("only"),
        patterns: vec![lex("y z")],
    };
    let rules2 = RuleSet { rules: vec![single] };
    let warnings2 = find_matches(&tokens, &rules2);
    assert_eq!(warnings2.len(), 1);
    assert_eq!(values(warnings2[0].tokens), vec!["y", "z"]);
}
