// The matcher's decisions at the cursor, for the inputs a host grammar
// hands it. The engine lexes `(` and `)` of the host's
// group rule itself, so a block inside a group is seen here with the
// `group` rule as its parent and the source after the `(`.

use tabnas_hoover::{
    block_token_name, check_alternates, check_val_rule, grammar_document, hoover_scan,
    host_groups, plan_alternates, AltView, Block, Consume, HooverRuleFilter, HooverRuleSpec,
    MatchOutcome, MatcherConfig, RuleContext, RuleState, ScanValue, DEFAULT_TOKEN, INVALID_ESCAPE,
    INVALID_TEXT, VERSION,
};

/// The host's keyword values, as the mini grammar defines them.
fn config() -> MatcherConfig {
    MatcherConfig {
        value_lex: true,
        definitions: vec!["true".into(), "false".into(), "null".into()],
    }
}

/// The `val` rule at the top level: the start rule, with no parent.
fn top() -> RuleContext {
    RuleContext { parent: None, name: "val".into(), state: RuleState::Open }
}

/// The `val` rule inside a parenthesised group.
fn in_group() -> RuleContext {
    RuleContext { parent: Some("group".into()), name: "val".into(), state: RuleState::Open }
}

fn scan(blocks: &[Block], ctx: &RuleContext, src: &str) -> Option<MatchOutcome> {
    hoover_scan(src, ctx, blocks, &config())
}

/// The text a block hoovers from `src`, and how many characters it
/// consumes.
fn hoovered(blocks: &[Block], ctx: &RuleContext, src: &str) -> (String, usize) {
    match scan(blocks, ctx, src) {
        Some(MatchOutcome::Token { value: ScanValue::Text(text), consumed, .. }) => {
            (text, consumed)
        }
        other => panic!("scan({src:?}) = {other:?}, want a text token"),
    }
}

/// `src` is hoovered whole into `want`.
fn parse_str(blocks: &[Block], src: &str, want: &str) {
    assert_eq!(hoovered(blocks, &top(), src), (want.to_string(), src.chars().count()), "{src:?}");
}

/// `src`, inside a group, is hoovered into `want` up to the closing `)`.
fn parse_in_group(blocks: &[Block], src: &str, want: &str) {
    let inner = &src[1..];
    let consumed = inner.chars().count() - 1;
    assert_eq!(hoovered(blocks, &in_group(), inner), (want.to_string(), consumed), "{src:?}");
}

fn triple_quote() -> Vec<Block> {
    vec![Block::delimited("triplequote", "'''", "'''")]
}

#[test]
fn fixed_delimiters() {
    let blocks = triple_quote();
    parse_str(&blocks, "'''x'''", "x");
    parse_str(&blocks, "'''hello world'''", "hello world"); // spaces preserved
    parse_str(&blocks, "'''a\nb'''", "a\nb"); // newlines preserved
    parse_str(&blocks, "'''  spaced  '''", "  spaced  "); // no trim by default
    parse_in_group(&blocks, "('''x''')", "x"); // nested in a group
    parse_in_group(&blocks, "(''' a b ''')", " a b ");
}

#[test]
fn eof_and_multiple_end_delimiters() {
    // ~ opens; closes on '>', '!' or end-of-input.
    let blocks = vec![Block::new("tilde").with_start(&["~"]).with_end(&[">", "!", ""])];
    parse_str(&blocks, "~hello world", "hello world"); // EOF terminates
    parse_str(&blocks, "~a>", "a"); // first delimiter
    parse_str(&blocks, "~a!", "a"); // second delimiter
}

#[test]
fn escapes() {
    // < ... > with backslash escapes; allow_unknown_escape defaults to true.
    let blocks = vec![Block::delimited("angle", "<", ">")
        .with_escape_char('\\')
        .with_escape("n", "\n")
        .with_escape(">", ">")
        .with_escape("\\", "\\")];
    parse_str(&blocks, "<a\\>b>", "a>b"); // escaped end delimiter
    parse_str(&blocks, "<a\\nb>", "a\nb"); // mapped escape
    parse_str(&blocks, "<a\\\\b>", "a\\b"); // escaped backslash
    parse_str(&blocks, "<a\\zb>", "azb"); // unknown escape: backslash dropped
    parse_str(&blocks, "<a\\\nb>", "a\nb"); // backslash before a literal newline
}

#[test]
fn reject_unknown_escape() {
    let mut block = Block::delimited("angle", "<", ">").with_escape_char('\\').with_escape(">", ">");
    block.allow_unknown_escape = Some(false);
    let blocks = vec![block];
    parse_str(&blocks, "<a\\>b>", "a>b"); // known escape still works
    // Unknown escape rejected: the bad token spans the escape character.
    assert_eq!(scan(&blocks, &top(), "<a\\zb>"), Some(MatchOutcome::InvalidEscape { at: 2 }));
    assert_eq!(INVALID_ESCAPE, "invalid_escape");
}

#[test]
fn preserve_escape_char() {
    let mut block = Block::delimited("angle", "<", ">").with_escape_char('\\');
    block.preserve_escape_char = true;
    parse_str(&[block], "<a\\zb>", "a\\zb"); // escape char kept in output
}

#[test]
fn trim() {
    let mut block = Block::delimited("angle", "<", ">");
    block.trim = true;
    let blocks = vec![block];
    parse_str(&blocks, "<  hello  >", "hello");
    parse_str(&blocks, "< a b >", "a b"); // internal spaces kept, edges trimmed
    // The JavaScript trim set, not Unicode White_Space: the BOM goes, NEL
    // stays.
    parse_str(&blocks, "<\u{FEFF}hello>", "hello");
    parse_str(&blocks, "<\u{0085}hello\u{0085}>", "\u{0085}hello\u{0085}");
}

#[test]
fn selective_end_consume() {
    // Closes on ';' or end-of-input; only ';' is consumed.
    let mut block = Block::new("tilde").with_start(&["~"]).with_end(&[";", ""]);
    block.end.consume = Consume::Only(vec![";".into()]);
    let blocks = vec![block];
    parse_str(&blocks, "~a b;", "a b");
    parse_str(&blocks, "~a b", "a b");
}

#[test]
fn rule_context_parent() {
    // The @ block only matches when the current rule's parent is `group`.
    let blocks = vec![Block::delimited("at", "@", "@").with_rule(HooverRuleSpec {
        parent: Some(HooverRuleFilter::include_only(&["group"])),
        ..Default::default()
    })];
    // Inside a group (parent == group): matches.
    parse_in_group(&blocks, "(@hello world@)", "hello world");
    // At top level (parent is not group): does not match, so the bare '@'
    // falls through to the engine's own matchers.
    assert_eq!(scan(&blocks, &top(), "@hello world@"), None);
}

#[test]
fn custom_token_name() {
    // A non-default token name is the name the block registers.
    let mut block = Block::delimited("tq", "'''", "'''");
    block.token = Some("#XX".into());
    assert_eq!(block_token_name(&block), Ok("#XX".to_string()));
    parse_str(&[block], "'''x'''", "x");
    assert!(check_val_rule(&vec!["val".to_string(), "group".to_string()]).is_ok());
}

#[test]
fn fail_fast_on_missing_grammar() {
    // A host without a `val` rule is refused with a clear error.
    let error = check_val_rule(&Vec::new()).expect_err("a host without a val rule is refused");
    assert!(error.0.contains("'val' rule is missing"), "unexpected message: {}", error.0);
}

#[test]
fn start_delimiter_consume() {
    // consume: Never leaves the start delimiter in the value.
    let mut block = Block::delimited("a", "<", ">");
    block.start.as_mut().expect("start").consume = Consume::Never;
    parse_str(&[block], "<hi>", "<hi");

    // consume: Only(...) consumes only the listed start delimiters.
    let mut block = Block::new("a").with_start(&["<", "~"]).with_end(&[">"]);
    block.start.as_mut().expect("start").consume = Consume::Only(vec!["<".into()]);
    let blocks = vec![block];
    parse_str(&blocks, "<hi>", "hi"); // '<' consumed
    parse_str(&blocks, "~hi>", "~hi"); // '~' kept
}

#[test]
fn end_delimiter_consume() {
    // consume: Never leaves the end delimiter, here the group's ')'.
    let mut block = Block::delimited("a", "~", ")");
    block.end.consume = Consume::Never;
    let blocks = vec![block];
    assert_eq!(hoovered(&blocks, &in_group(), "~hi)"), ("hi".to_string(), 3));

    // consume: All removes the end delimiter.
    let mut block = Block::new("a").with_start(&["~"]).with_end(&[";", ""]);
    block.end.consume = Consume::All;
    parse_str(&[block], "~hi;", "hi");
}

#[test]
fn rule_context_parent_exclude() {
    let blocks = vec![Block::delimited("at", "@", "@").with_rule(HooverRuleSpec {
        parent: Some(HooverRuleFilter::exclude(&["group"])),
        ..Default::default()
    })];
    parse_str(&blocks, "@hi@", "hi"); // top level: parent not group, matches
    assert_eq!(scan(&blocks, &in_group(), "@hi@)"), None); // inside group: excluded
}

#[test]
fn rule_context_current_filter() {
    let blocks = vec![Block::delimited("at", "@", "@").with_rule(HooverRuleSpec {
        current: Some(HooverRuleFilter {
            included: Some(vec!["val".into()]),
            exclude: Some(vec!["group".into()]),
        }),
        ..Default::default()
    })];
    parse_str(&blocks, "@hi@", "hi");

    // Excluding the current rule turns the block off everywhere.
    let blocks = vec![Block::delimited("at", "@", "@").with_rule(HooverRuleSpec {
        current: Some(HooverRuleFilter::exclude(&["val"])),
        ..Default::default()
    })];
    assert_eq!(scan(&blocks, &top(), "@hi@"), None);
    assert_eq!(scan(&blocks, &in_group(), "@hi@)"), None);
}

fn at_with_state(state: &str, parent: Option<HooverRuleFilter>) -> Vec<Block> {
    vec![Block::delimited("at", "@", "@").with_rule(HooverRuleSpec {
        parent,
        current: None,
        state: Some(state.into()),
    })]
}

#[test]
fn rule_context_state() {
    // explicit state 'oc' checks open|close; matches at val open.
    parse_str(&at_with_state("oc", None), "@hi@", "hi");

    // explicit state 'o' is the default and matches at val open.
    parse_str(&at_with_state("o", None), "@hi@", "hi");

    // state 'c' only: the val rule is OPEN when the block would start, so
    // the block never matches.
    assert_eq!(scan(&at_with_state("c", None), &top(), "@hi@"), None);
    let closing = RuleContext { state: RuleState::Close, ..top() };
    assert!(scan(&at_with_state("c", None), &closing, "@hi@").is_some());

    // state '' with a parent filter: the state check is skipped and the
    // parent filter decides.
    let blocks = at_with_state("", Some(HooverRuleFilter::include_only(&["group"])));
    parse_in_group(&blocks, "(@hi@)", "hi");
    assert_eq!(scan(&blocks, &top(), "@hi@"), None);
    assert_eq!(scan(&blocks, &top(), "@hello world@"), None);

    // state '' with NO parent/current filter still matches: no rule
    // condition at all is no constraint, not a failed one.
    let blocks = at_with_state("", None);
    parse_str(&blocks, "@hi@", "hi");
    parse_in_group(&blocks, "(@hi@)", "hi");
}

#[test]
fn escape_char_as_the_final_source_character() {
    // Nothing to escape: the block never reaches its end delimiter (not
    // even the configured EOF one) and is reported as unterminated.
    let blocks =
        vec![Block::new("a").with_start(&["~"]).with_end(&[">", ""]).with_escape_char('\\')];
    parse_str(&blocks, "~ab>", "ab"); // control: terminates normally
    assert_eq!(scan(&blocks, &top(), "~ab\\"), Some(MatchOutcome::InvalidText { width: 1 }));
}

#[test]
fn unterminated_block_is_invalid_text() {
    // The bad token spans the start delimiter.
    assert_eq!(
        scan(&triple_quote(), &top(), "'''never closed"),
        Some(MatchOutcome::InvalidText { width: 3 })
    );
    assert_eq!(INVALID_TEXT, "invalid_text");
}

#[test]
fn newline_terminated_value() {
    let blocks = vec![Block::new("line").with_start(&["~"]).with_end(&["\n", "\r\n", ""])];
    parse_str(&blocks, "~a b\n", "a b"); // newline consumed
    parse_str(&blocks, "~a b\r\n", "a b"); // CRLF consumed
    parse_str(&blocks, "~a b", "a b"); // EOF
}

#[test]
fn resolves_keyword_values() {
    // A hoovered value that matches a defined value resolves to that
    // value, not the string.
    let blocks = vec![Block::new("a").with_start(&["~"]).with_end(&[">", ""])];
    assert_eq!(
        scan(&blocks, &top(), "~true>"),
        Some(MatchOutcome::Token { block: 0, value: ScanValue::Defined(0), consumed: 6 })
    );
    assert_eq!(
        scan(&blocks, &top(), "~null>"),
        Some(MatchOutcome::Token { block: 0, value: ScanValue::Defined(2), consumed: 6 })
    );
    parse_str(&blocks, "~hello>", "hello"); // non-keyword stays a string
}

#[test]
fn does_not_mutate_caller_block_definitions() {
    // Resolving the default token name leaves the definition as it was.
    let block = Block::delimited("tq", "'''", "'''");
    let copy = block.clone();
    assert_eq!(block_token_name(&block), Ok(DEFAULT_TOKEN.to_string()));
    parse_str(&[block.clone()], "'''x'''", "x");
    assert_eq!(block, copy);
    assert_eq!(block.token, None);
}

#[test]
fn blocks_are_tried_in_order() {
    // Both blocks start with '<'; the first listed wins.
    let blocks = vec![Block::delimited("first", "<", ">"), Block::delimited("second", "<", "!")];
    assert_eq!(
        scan(&blocks, &top(), "<a>"),
        Some(MatchOutcome::Token { block: 0, value: ScanValue::Text("a".into()), consumed: 3 })
    );
    // Committed to the first block.
    assert_eq!(scan(&blocks, &top(), "<a!"), Some(MatchOutcome::InvalidText { width: 1 }));
}

#[test]
fn the_token_carries_the_block_name_and_the_action_runs() {
    // The token names the block that produced it (by its index, from
    // which the engine's token takes `use.block`), and the alternates
    // carry the action reference.
    let blocks = vec![Block::delimited("tq", "'''", "'''"), Block::delimited("angle", "<", ">")];
    assert_eq!(
        scan(&blocks, &top(), "'''a'''"),
        Some(MatchOutcome::Token { block: 0, value: ScanValue::Text("a".into()), consumed: 7 })
    );
    assert_eq!(
        scan(&blocks, &in_group(), "<b>)"),
        Some(MatchOutcome::Token { block: 1, value: ScanValue::Text("b".into()), consumed: 3 })
    );
    let names = vec![DEFAULT_TOKEN.to_string(), DEFAULT_TOKEN.to_string()];
    let plan = plan_alternates(&names, Some("@hoover-action-0"), "");
    assert_eq!(plan.first, vec![0]);
    assert_eq!(plan.alts, vec![r##"{"s":"#HV","a":"@hoover-action-0"}"##.to_string()]);
}

#[test]
fn hoover_extends_a_grammar_that_sets_rule_include() {
    let blocks = triple_quote();
    parse_str(&blocks, "'''x'''", "x");
    parse_str(&blocks, "'''hello world'''", "hello world");
    parse_str(&blocks, "'''a\nb'''", "a\nb");
    parse_in_group(&blocks, "('''x''')", "x");
    // The alternate carries the host's include tag.
    let (tags, groups) = host_groups("mini");
    assert_eq!(tags, vec!["mini".to_string()]);
    assert_eq!(groups, "mini");
    let plan = plan_alternates(&vec![DEFAULT_TOKEN.to_string()], None, &groups);
    assert_eq!(plan.alts, vec![r##"{"s":"#HV","g":"mini"}"##.to_string()]);
}

#[test]
fn the_block_alternate_survives_the_filter() {
    let hv = 7;
    let alts = vec![AltView { positions: vec![vec![hv]], groups: "mini".into() }];
    let tags = vec!["mini".to_string()];
    assert_eq!(check_alternates(&vec![hv], &alts, &tags, "mini", ""), Ok(()));
}

#[test]
fn hoover_refuses_a_host_whose_filter_excludes_the_block_alternate() {
    // The alt carries the host's include tags, so the only way the filter
    // removes it is a host that excludes one of those same tags.
    let hv = 7;
    let alts = vec![AltView { positions: vec![vec![hv]], groups: "mini".into() }];
    let tags = vec!["mini".to_string()];
    let error = check_alternates(&vec![hv], &alts, &tags, "mini", "mini")
        .expect_err("a host whose alt filter drops the alternate is refused");
    assert!(error.0.contains("removed from the 'val' rule"), "unexpected message: {}", error.0);
    assert!(error.0.contains("rule.include=[\"mini\"]"), "{}", error.0);
    assert!(error.0.contains("rule.exclude=[\"mini\"]"), "{}", error.0);
}

#[test]
fn version_is_exported() {
    assert_eq!(VERSION.split('.').count(), 3);
}

#[test]
fn rule_context_parent_at_the_start_rule() {
    // The start rule has no parent: no `parent.include` entry but `""`
    // matches it and every other `parent.exclude` passes.
    let blocks = vec![Block::delimited("at", "@", "@").with_rule(HooverRuleSpec {
        parent: Some(HooverRuleFilter::include_only(&["none"])),
        ..Default::default()
    })];
    assert_eq!(scan(&blocks, &top(), "@hi@"), None); // include never matches at the root
    let blocks = vec![Block::delimited("at", "@", "@").with_rule(HooverRuleSpec {
        parent: Some(HooverRuleFilter::exclude(&["none"])),
        ..Default::default()
    })];
    parse_str(&blocks, "@hi@", "hi"); // exclude always passes at the root
    let blocks = vec![Block::delimited("at", "@", "@").with_rule(HooverRuleSpec {
        parent: Some(HooverRuleFilter::include_only(&[""])),
        ..Default::default()
    })];
    parse_str(&blocks, "@hi@", "hi"); // "" names the missing parent
}

#[test]
fn row_after_a_mapped_escape_follows_the_source() {
    // The block consumes the source characters, escape included: the
    // cursor (and so the row of a later error) advances over `\`,`n`.
    let blocks = vec![Block::delimited("angle", "<", ">")
        .with_escape_char('\\')
        .with_escape("n", "\n")];
    assert_eq!(hoovered(&blocks, &top(), "<a\\nb> %"), ("a\nb".to_string(), 6));
    let blocks = vec![Block::delimited("angle", "<", ">")
        .with_escape_char('\\')
        .with_escape("\n", "N")];
    assert_eq!(hoovered(&blocks, &top(), "<a\\\nb> %"), ("aNb".to_string(), 6));
}

#[test]
fn an_astral_escape_key_never_matches_as_in_typescript() {
    // A key outside the Basic Multilingual Plane cannot match, so the
    // character takes the unknown-escape path.
    let blocks = vec![Block::delimited("angle", "<", ">")
        .with_escape_char('\\')
        .with_escape("\u{1F600}", "X")
        .with_escape("n", "\n")];
    parse_str(&blocks, "<a\\\u{1F600}b>", "a\u{1F600}b"); // unknown escape: char kept
    parse_str(&blocks, "<a\\nb>", "a\nb"); // a BMP key still maps
}

#[test]
fn the_grammar_document_registers_the_matcher_and_the_alternates() {
    let alts = vec![r##"{"s":"#XX"}"##.to_string(), r##"{"s":"#HV"}"##.to_string()];
    assert_eq!(
        grammar_document("4500000", "@hoover-matcher-3", &alts),
        r##"{"options":{"lex":{"match":{"hoover":{"order":4500000,"make":"@hoover-matcher-3"}}}},"rule":{"val":{"open":[{"s":"#XX"},{"s":"#HV"}]}}}"##
    );
}

#[test]
fn one_alternate_per_distinct_token_name_in_reverse_block_order() {
    let names = vec!["#HV".to_string(), "#XX".to_string(), "#HV".to_string()];
    let plan = plan_alternates(&names, None, "");
    assert_eq!(plan.first, vec![0, 1]);
    assert_eq!(
        plan.alts,
        vec![r##"{"s":"#XX"}"##.to_string(), r##"{"s":"#HV"}"##.to_string()]
    );
}

#[test]
fn a_later_escape_replaces_the_earlier_one_for_its_key() {
    let block = Block::delimited("angle", "<", ">")
        .with_escape_char('\\')
        .with_escape("n", "1")
        .with_escape("t", "\t")
        .with_escape("n", "\n");
    assert_eq!(
        block.escape,
        vec![("n".to_string(), "\n".to_string()), ("t".to_string(), "\t".to_string())]
    );
    parse_str(&[block], "<a\\nb\\tc>", "a\nb\tc");
}

#[test]
fn a_token_name_with_whitespace_is_refused() {
    let mut block = Block::delimited("tq", "'''", "'''");
    block.token = Some("#H V".into());
    let error = block_token_name(&block).expect_err("a token name is a word");
    assert_eq!(
        error.0,
        "tabnas-hoover: block \"tq\" has the token name \"#H V\"; a token name is a non-empty word without whitespace"
    );
    block.token = Some(String::new());
    assert!(block_token_name(&block).is_err());
}

#[test]
fn json_string_escapes_quotes_backslashes_and_control_characters() {
    assert_eq!(tabnas_hoover::json_string("a\"b\\c\n\r\t\u{1}\u{1f}é"), "\"a\\\"b\\\\c\\n\\r\\t\\u0001\\u001fé\"");
}

#[test]
fn an_end_delimiter_is_tried_only_as_the_first_with_its_first_character() {
    // '>>' is listed before '>': a lone '>' starts '>>' but does not
    // complete it, and '>' is never tried there, so it is hoovered.
    let blocks = vec![Block::new("a").with_start(&["<"]).with_end(&[">>", ">", ""])];
    parse_str(&blocks, "<a>b>>", "a>b");
    parse_str(&blocks, "<a>b", "a>b");
}

#[test]
fn json_string_reads_back_as_its_text() {
    for text in ["", "plain", "a\"b\\c", "\n\r\t\u{0}\u{1f}\u{7f}", "é\u{FEFF}\u{1F600}", "@hoover-matcher-12"] {
        let literal = tabnas_hoover::json_string(text);
        assert!(literal.starts_with('"') && literal.ends_with('"'), "{literal}");
        assert!(literal.chars().all(|c| (c as u32) >= 0x20), "{literal:?}");
        let back: String = serde_json::from_str(&literal).expect("a JSON string literal");
        assert_eq!(back, text);
    }
}
