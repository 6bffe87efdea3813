// Reading the options from their JSON data shape.

use tabnas_hoover::{
    block_from_json, options_from_json, Consume, HooverRuleFilter, HooverRuleSpec, JsonValue,
};

fn text(s: &str) -> JsonValue {
    JsonValue::Text(s.to_string())
}

fn list(items: &[&str]) -> JsonValue {
    JsonValue::Array(items.iter().map(|s| text(s)).collect())
}

fn obj(members: Vec<(&str, JsonValue)>) -> JsonValue {
    JsonValue::Object(members.into_iter().map(|(k, v)| (k.to_string(), v)).collect())
}

fn num(n: &str) -> JsonValue {
    JsonValue::Number(n.to_string())
}

#[test]
fn options_from_json_read_the_shared_data_shape() {
    // {"lex":{"order":1000000},"block":[{"name":"angle","start":{"fixed":["<","~"],
    //  "consume":["<"],"rule":{"parent":{"include":["group"]},"state":""}},
    //  "end":{"fixed":[">",""],"consume":false},"escapeChar":"\\","escape":{">":">"},
    //  "allowUnknownEscape":false,"preserveEscapeChar":true,"trim":true,"token":"#XX"}]}
    let document = obj(vec![
        ("block", JsonValue::Array(vec![obj(vec![
            ("allowUnknownEscape", JsonValue::Bool(false)),
            ("end", obj(vec![("consume", JsonValue::Bool(false)), ("fixed", list(&[">", ""]))])),
            ("escape", obj(vec![(">", text(">"))])),
            ("escapeChar", text("\\")),
            ("name", text("angle")),
            ("preserveEscapeChar", JsonValue::Bool(true)),
            (
                "start",
                obj(vec![
                    ("consume", list(&["<"])),
                    ("fixed", list(&["<", "~"])),
                    (
                        "rule",
                        obj(vec![
                            ("parent", obj(vec![("include", list(&["group"]))])),
                            ("state", text("")),
                        ]),
                    ),
                ]),
            ),
            ("token", text("#XX")),
            ("trim", JsonValue::Bool(true)),
        ])])),
        ("lex", obj(vec![("order", num("1000000"))])),
    ]);
    let options = options_from_json(&document).ok().expect("options");
    assert_eq!(options.lex_order, Some("1000000".to_string()));
    assert_eq!(options.block.len(), 1);
    let block = &options.block[0];
    assert_eq!(block.name, "angle");
    let start = block.start.as_ref().expect("start");
    assert_eq!(start.fixed, Some(vec!["<".to_string(), "~".to_string()]));
    assert_eq!(start.consume, Consume::Only(vec!["<".to_string()]));
    let rule = start.rule.as_ref().expect("rule");
    assert_eq!(rule.parent, Some(HooverRuleFilter::include_only(&["group"])));
    assert_eq!(rule.current, None);
    assert_eq!(rule.state, Some(String::new()));
    assert_eq!(block.end.fixed, vec![">".to_string(), String::new()]);
    assert_eq!(block.end.consume, Consume::Never);
    assert_eq!(block.escape_char, Some('\\'));
    assert_eq!(block.escape, vec![(">".to_string(), ">".to_string())]);
    assert_eq!(block.allow_unknown_escape, Some(false));
    assert!(block.preserve_escape_char);
    assert!(block.trim);
    assert_eq!(block.token.as_deref(), Some("#XX"));

    // Capitalised field names resolve too, and a JSON null state is unset.
    let document = obj(vec![(
        "block",
        JsonValue::Array(vec![obj(vec![
            ("End", obj(vec![("Fixed", text(">"))])),
            ("EscapeChar", text("")),
            ("Name", text("a")),
            ("Start", obj(vec![("Fixed", text("~")), ("Rule", obj(vec![("State", JsonValue::Null)]))])),
        ])]),
    )]);
    let options = options_from_json(&document).ok().expect("options");
    let block = &options.block[0];
    assert_eq!(block.name, "a");
    assert_eq!(block.start.as_ref().and_then(|s| s.fixed.clone()), Some(vec!["~".into()]));
    assert_eq!(block.start.as_ref().and_then(|s| s.rule.clone()), Some(HooverRuleSpec::default()));
    assert_eq!(block.escape_char, None);

    // Malformed shapes are errors, not silent defaults.
    let bad = vec![
        JsonValue::Array(vec![]),
        obj(vec![("block", obj(vec![]))]),
        obj(vec![("block", JsonValue::Array(vec![obj(vec![("name", text("a")), ("escapeChar", text("ab"))])]))]),
        obj(vec![(
            "block",
            JsonValue::Array(vec![obj(vec![("name", text("a")), ("start", obj(vec![("fixed", num("1"))]))])]),
        )]),
        obj(vec![(
            "block",
            JsonValue::Array(vec![obj(vec![("end", obj(vec![("consume", text("yes"))])), ("name", text("a"))])]),
        )]),
        obj(vec![("lex", obj(vec![("order", text("soon"))]))]),
    ];
    for document in &bad {
        assert!(options_from_json(document).is_err(), "{document:?} should be refused");
    }
}

#[test]
fn a_malformed_start_or_end_is_rejected_by_from_json() {
    let bad_start = obj(vec![(
        "block",
        JsonValue::Array(vec![obj(vec![
            ("end", obj(vec![("fixed", text(">"))])),
            ("name", text("angle")),
            ("start", text("<")),
        ])]),
    )]);
    let error = options_from_json(&bad_start).err().expect("start must be an object");
    assert_eq!(error.0, "hoover: block \"angle\".start must be an object");

    let bad_end = obj(vec![(
        "block",
        JsonValue::Array(vec![obj(vec![
            ("end", num("5")),
            ("name", text("angle")),
            ("start", obj(vec![("fixed", text("<"))])),
        ])]),
    )]);
    let error = options_from_json(&bad_end).err().expect("end must be an object");
    assert!(error.0.contains(".end must be an object"), "{}", error.0);

    // null is "absent", as in both other runtimes.
    let null_start = obj(vec![(
        "block",
        JsonValue::Array(vec![obj(vec![
            ("end", obj(vec![("fixed", text(">"))])),
            ("name", text("angle")),
            ("start", JsonValue::Null),
        ])]),
    )]);
    let options = options_from_json(&null_start).ok().expect("null start is absent");
    assert!(options.block[0].start.is_none());
}

#[test]
fn each_error_names_its_place() {
    let expect = |document: JsonValue, message: &str| {
        let error = options_from_json(&document).err().expect("an error");
        assert_eq!(error.0, message);
    };
    expect(JsonValue::Null, "hoover: options must be an object");
    expect(obj(vec![("block", text("x"))]), "hoover: options.block must be an array of blocks");
    expect(obj(vec![("block", JsonValue::Array(vec![num("1")]))]), "hoover: each block must be an object");
    expect(
        obj(vec![("block", JsonValue::Array(vec![obj(vec![("name", text("a")), ("escapeChar", text("ab"))])]))]),
        "hoover: block \"a\".escapeChar must be a single character",
    );
    expect(
        obj(vec![(
            "block",
            JsonValue::Array(vec![obj(vec![("start", obj(vec![("fixed", JsonValue::Array(vec![num("1")]))]))])]),
        )]),
        "hoover: block \"\".start.fixed entries must be strings",
    );
    expect(
        obj(vec![("block", JsonValue::Array(vec![obj(vec![("end", obj(vec![("fixed", JsonValue::Bool(true))]))])]))]),
        "hoover: block \"\".end.fixed must be a string or a list of strings",
    );
    expect(
        obj(vec![("block", JsonValue::Array(vec![obj(vec![("end", obj(vec![("consume", num("2"))]))])]))]),
        "hoover: block \"\".end.consume must be a boolean or a list of strings",
    );
    expect(
        obj(vec![(
            "block",
            JsonValue::Array(vec![obj(vec![("start", obj(vec![("consume", JsonValue::Array(vec![JsonValue::Null]))]))])]),
        )]),
        "hoover: block \"\".start.consume entries must be strings",
    );
    expect(
        obj(vec![("block", JsonValue::Array(vec![obj(vec![("start", obj(vec![("rule", text("o"))]))])]))]),
        "hoover: block \"\".start.rule must be an object",
    );
    expect(
        obj(vec![(
            "block",
            JsonValue::Array(vec![obj(vec![("start", obj(vec![("rule", obj(vec![("parent", list(&["x"]))]))]))])]),
        )]),
        "hoover: block \"\".start.rule.parent must be an object",
    );
    expect(
        obj(vec![(
            "block",
            JsonValue::Array(vec![obj(vec![(
                "start",
                obj(vec![("rule", obj(vec![("current", obj(vec![("exclude", num("3"))]))]))]),
            )])]),
        )]),
        "hoover: block \"\".start.rule.current.exclude must be a string or a list of strings",
    );
    expect(obj(vec![("lex", obj(vec![("order", text("soon"))]))]), "hoover: options.lex.order must be a number");
}

#[test]
fn an_exact_key_wins_over_a_case_insensitive_one() {
    let document = obj(vec![(
        "block",
        JsonValue::Array(vec![obj(vec![("NAME", text("upper")), ("name", text("exact"))])]),
    )]);
    let options = options_from_json(&document).ok().expect("options");
    assert_eq!(options.block[0].name, "exact");
    // A later escape member with the same key would replace the earlier one;
    // a non-string replacement is ignored.
    let block = block_from_json(&obj(vec![(
        "escape",
        obj(vec![("n", text("\n")), ("t", JsonValue::Bool(true))]),
    )]))
    .ok()
    .expect("block");
    assert_eq!(block.escape, vec![("n".to_string(), "\n".to_string())]);
    // A non-object `lex` is ignored.
    let options = options_from_json(&obj(vec![("lex", num("1"))])).ok().expect("options");
    assert_eq!(options.lex_order, None);
    assert!(options.block.is_empty());
}

#[test]
fn unknown_keys_are_ignored() {
    let plain = obj(vec![(
        "block",
        JsonValue::Array(vec![obj(vec![
            ("end", obj(vec![("fixed", text(">"))])),
            ("name", text("angle")),
            ("start", obj(vec![("fixed", text("<"))])),
        ])]),
    )]);
    let noisy = obj(vec![
        (
            "block",
            JsonValue::Array(vec![obj(vec![
                ("colour", text("red")),
                ("end", obj(vec![("fixed", text(">")), ("why", JsonValue::Null)])),
                ("name", text("angle")),
                ("start", obj(vec![("extra", num("1")), ("fixed", text("<"))])),
                ("zzz", JsonValue::Array(vec![])),
            ])]),
        ),
        ("comment", text("ignored")),
    ]);
    let a = options_from_json(&plain).ok().expect("options");
    let b = options_from_json(&noisy).ok().expect("options");
    assert_eq!(a.block, b.block);
    assert_eq!(a.lex_order, b.lex_order);
}
