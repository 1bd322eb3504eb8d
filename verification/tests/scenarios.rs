use topiary::pipeline::{check_idempotence, format_pass};
use topiary::query::{load_document, RawCapture, RawRule};
use topiary::render::Config;
use topiary::tree::{Node, SyntaxTree};
use topiary::error::FormatterError;

fn cap(name: &str, count: u64, text: &str) -> RawCapture {
    RawCapture { name: name.to_string(), count, text: text.to_string() }
}

fn leaf(kind: u64, start: usize, end: usize, parent: Option<usize>) -> Node {
    Node { kind, start, end, parent, children: Vec::new() }
}

#[test]
fn delete_and_hardline_scenario() {
    // "a;;b" with a rule deleting the redundant ';' and one inserting a
    // line break after a statement terminator.
    let tree = SyntaxTree {
        nodes: vec![
            Node { kind: 0, start: 0, end: 4, parent: None, children: vec![1, 2, 3, 4] },
            leaf(1, 0, 1, Some(0)),
            leaf(2, 1, 2, Some(0)),
            leaf(3, 2, 3, Some(0)),
            leaf(1, 3, 4, Some(0)),
        ],
    };
    let doc = load_document(&vec![
        RawRule { kind: 3, within: None, captures: vec![cap("delete", 0, "")] },
        RawRule { kind: 2, within: None, captures: vec![cap("append_hardline", 0, "")] },
    ])
    .unwrap();
    let cfg = Config::default();
    let out1 = format_pass("a;;b", &tree, &doc, &cfg).unwrap();
    assert_eq!(out1, "a;\nb");

    // Second pass over the first output, freshly parsed, is unchanged.
    let tree2 = SyntaxTree {
        nodes: vec![
            Node { kind: 0, start: 0, end: 4, parent: None, children: vec![1, 2, 3] },
            leaf(1, 0, 1, Some(0)),
            leaf(2, 1, 2, Some(0)),
            leaf(1, 3, 4, Some(0)),
        ],
    };
    let out2 = format_pass(&out1, &tree2, &doc, &cfg).unwrap();
    assert_eq!(out2, "a;\nb");
    let joined = check_idempotence(out1, out2).unwrap();
    assert_eq!(joined, "a;\nb");
}

#[test]
fn blank_lines_maximum_wins() {
    // Two rules requesting 1 and 3 blank lines at the same anchor yield
    // exactly 3, never 4.
    let tree = SyntaxTree {
        nodes: vec![
            Node { kind: 0, start: 0, end: 2, parent: None, children: vec![1, 2] },
            leaf(1, 0, 1, Some(0)),
            leaf(2, 1, 2, Some(0)),
        ],
    };
    let doc = load_document(&vec![
        RawRule { kind: 0, within: None, captures: vec![cap("append_blank_lines", 1, "")] },
        RawRule { kind: 2, within: None, captures: vec![cap("append_blank_lines", 3, "")] },
    ])
    .unwrap();
    let cfg = Config { indent_width: 2, max_blank_lines: 5 };
    let out = format_pass("xy", &tree, &doc, &cfg).unwrap();
    assert_eq!(out, "xy\n\n\n\n");
}

#[test]
fn blank_lines_capped_by_config() {
    let tree = SyntaxTree {
        nodes: vec![leaf(1, 0, 1, None), leaf(2, 1, 2, None)],
    };
    let doc = load_document(&vec![RawRule {
        kind: 1,
        within: None,
        captures: vec![cap("append_blank_lines", 5, "")],
    }])
    .unwrap();
    let cfg = Config { indent_width: 2, max_blank_lines: 1 };
    let out = format_pass("xy", &tree, &doc, &cfg).unwrap();
    assert_eq!(out, "x\n\ny");
}

#[test]
fn nesting_depth_twenty_is_stable() {
    // A construct nested to depth 20 renders indentation proportional to
    // the depth and is unchanged by a second pass.
    let depth = 20usize;
    let mut src = String::new();
    let mut nodes: Vec<Node> = Vec::new();
    for i in 0..depth {
        src.push('(');
        nodes.push(leaf(10, i, i + 1, None));
    }
    src.push('x');
    nodes.push(leaf(11, depth, depth + 1, None));
    for i in 0..depth {
        src.push(')');
        nodes.push(leaf(12, depth + 1 + i, depth + 2 + i, None));
    }
    let tree = SyntaxTree { nodes };
    let doc = load_document(&vec![
        RawRule {
            kind: 10,
            within: None,
            captures: vec![cap("append_indent_start", 0, ""), cap("append_hardline", 0, "")],
        },
        RawRule {
            kind: 12,
            within: None,
            captures: vec![cap("prepend_indent_end", 0, ""), cap("prepend_hardline", 0, "")],
        },
    ])
    .unwrap();
    let cfg = Config::default();
    let out1 = format_pass(&src, &tree, &doc, &cfg).unwrap();

    // Expected text, and the token positions of that text for the second
    // parse.
    let mut expected = String::new();
    let mut nodes2: Vec<Node> = Vec::new();
    for i in 0..depth {
        if i > 0 {
            expected.push_str(&" ".repeat(2 * i));
        }
        nodes2.push(leaf(10, expected.chars().count(), expected.chars().count() + 1, None));
        expected.push('(');
        expected.push('\n');
    }
    expected.push_str(&" ".repeat(2 * depth));
    nodes2.push(leaf(11, expected.chars().count(), expected.chars().count() + 1, None));
    expected.push('x');
    for i in 0..depth {
        expected.push('\n');
        let lvl = depth - 1 - i;
        expected.push_str(&" ".repeat(2 * lvl));
        nodes2.push(leaf(12, expected.chars().count(), expected.chars().count() + 1, None));
        expected.push(')');
    }
    assert_eq!(out1, expected);
    // Indentation is proportional to depth: the line with `x` opens with
    // 40 spaces.
    assert!(out1.contains(&format!("\n{}x", " ".repeat(40))));

    let tree2 = SyntaxTree { nodes: nodes2 };
    let out2 = format_pass(&out1, &tree2, &doc, &cfg).unwrap();
    assert_eq!(out2, out1);
}

#[test]
fn unbound_capture_fails_at_load_time() {
    // A rule referencing an unbound capture name fails with a Query error
    // before any source is processed.
    let r = load_document(&vec![RawRule {
        kind: 1,
        within: None,
        captures: vec![cap("append_spaces", 0, "")],
    }]);
    match r {
        Err(FormatterError::Query(m)) => {
            assert_eq!(m, "unknown capture name in pattern document: 'append_spaces'");
        },
        _ => panic!("expected a Query error at load time"),
    }
}

#[test]
fn delete_beats_space_at_shared_anchor() {
    // Delete and InsertSpace meet at one anchor: the space is suppressed,
    // whichever rule matched first.
    let tree = SyntaxTree {
        nodes: vec![
            Node { kind: 0, start: 0, end: 2, parent: None, children: vec![1, 2] },
            leaf(1, 0, 1, Some(0)),
            leaf(2, 1, 2, Some(0)),
        ],
    };
    let doc = load_document(&vec![
        RawRule { kind: 0, within: None, captures: vec![cap("append_space", 0, "")] },
        RawRule { kind: 2, within: None, captures: vec![cap("delete", 0, "")] },
    ])
    .unwrap();
    let cfg = Config::default();
    let out = format_pass("xy", &tree, &doc, &cfg).unwrap();
    assert_eq!(out, "x");
}

#[test]
fn no_space_overrides_space() {
    let tree = SyntaxTree {
        nodes: vec![
            Node { kind: 0, start: 0, end: 2, parent: None, children: vec![1, 2] },
            leaf(1, 0, 1, Some(0)),
            leaf(2, 1, 2, Some(0)),
        ],
    };
    let doc = load_document(&vec![
        RawRule { kind: 0, within: None, captures: vec![cap("append_space", 0, "")] },
        RawRule { kind: 2, within: None, captures: vec![cap("append_no_space", 0, "")] },
    ])
    .unwrap();
    let cfg = Config::default();
    let out = format_pass("xy", &tree, &doc, &cfg).unwrap();
    assert_eq!(out, "xy");
}

#[test]
fn space_between_tokens() {
    let tree = SyntaxTree {
        nodes: vec![leaf(1, 0, 1, None), leaf(2, 1, 2, None)],
    };
    let doc = load_document(&vec![RawRule {
        kind: 1,
        within: None,
        captures: vec![cap("append_space", 0, "")],
    }])
    .unwrap();
    let cfg = Config::default();
    let out = format_pass("xy", &tree, &doc, &cfg).unwrap();
    assert_eq!(out, "x y");
}

#[test]
fn literal_insertion() {
    let tree = SyntaxTree {
        nodes: vec![leaf(1, 0, 1, None), leaf(2, 1, 2, None)],
    };
    let doc = load_document(&vec![RawRule {
        kind: 1,
        within: None,
        captures: vec![cap("append_literal", 0, ";")],
    }])
    .unwrap();
    let cfg = Config::default();
    let out = format_pass("xy", &tree, &doc, &cfg).unwrap();
    assert_eq!(out, "x;y");
}

#[test]
fn context_sensitive_rule_matches_inside_enclosing_kind() {
    // The same kind formats differently inside an enclosing node of kind 7.
    let tree = SyntaxTree {
        nodes: vec![
            Node { kind: 7, start: 0, end: 2, parent: None, children: vec![1, 2] },
            leaf(1, 0, 1, Some(0)),
            leaf(2, 1, 2, Some(0)),
        ],
    };
    let doc = load_document(&vec![RawRule {
        kind: 1,
        within: Some(7),
        captures: vec![cap("append_space", 0, "")],
    }])
    .unwrap();
    let cfg = Config::default();
    let out = format_pass("xy", &tree, &doc, &cfg).unwrap();
    assert_eq!(out, "x y");

    // Without the enclosing kind, the rule does not match.
    let loose = SyntaxTree { nodes: vec![leaf(1, 0, 1, None), leaf(2, 1, 2, None)] };
    let out2 = format_pass("xy", &loose, &doc, &cfg).unwrap();
    assert_eq!(out2, "xy");
}

#[test]
fn first_rule_in_document_order_claims_the_node() {
    let tree = SyntaxTree { nodes: vec![leaf(1, 0, 1, None), leaf(2, 1, 2, None)] };
    let doc = load_document(&vec![
        RawRule { kind: 1, within: None, captures: vec![cap("append_literal", 0, "+")] },
        RawRule { kind: 1, within: None, captures: vec![cap("append_literal", 0, "-")] },
    ])
    .unwrap();
    let cfg = Config::default();
    let out = format_pass("xy", &tree, &doc, &cfg).unwrap();
    assert_eq!(out, "x+y");
}

#[test]
fn unbalanced_indentation_is_an_internal_error() {
    let tree = SyntaxTree { nodes: vec![leaf(1, 0, 1, None)] };
    let doc = load_document(&vec![RawRule {
        kind: 1,
        within: None,
        captures: vec![cap("append_indent_end", 0, "")],
    }])
    .unwrap();
    let cfg = Config::default();
    match format_pass("x", &tree, &doc, &cfg) {
        Err(FormatterError::Internal(m)) => {
            assert_eq!(m, "unbalanced indentation in atom stream");
        },
        _ => panic!("expected an internal error"),
    }
}

#[test]
fn anchor_off_every_token_boundary_is_an_internal_error() {
    // The matched node starts where no token does.
    let tree = SyntaxTree {
        nodes: vec![
            Node { kind: 0, start: 0, end: 3, parent: None, children: vec![1] },
            leaf(1, 1, 2, Some(0)),
        ],
    };
    let doc = load_document(&vec![RawRule {
        kind: 0,
        within: None,
        captures: vec![cap("prepend_space", 0, "")],
    }])
    .unwrap();
    let cfg = Config::default();
    match format_pass("axb", &tree, &doc, &cfg) {
        Err(FormatterError::Internal(m)) => {
            assert_eq!(m, "directive anchor does not lie on a token boundary");
        },
        _ => panic!("expected an internal error"),
    }
}

#[test]
fn malformed_tree_is_an_internal_error() {
    // A leaf with an empty range is not a well-formed token.
    let tree = SyntaxTree { nodes: vec![leaf(1, 1, 1, None)] };
    let doc = load_document(&Vec::new()).unwrap();
    let cfg = Config::default();
    match format_pass("x", &tree, &doc, &cfg) {
        Err(FormatterError::Internal(m)) => {
            assert_eq!(m, "syntax tree is not well formed");
        },
        _ => panic!("expected an internal error"),
    }
}

#[test]
fn differing_generations_report_idempotence_failure() {
    match check_idempotence("a".to_string(), "b".to_string()) {
        Err(FormatterError::Idempotence(first, second)) => {
            assert_eq!(first, "a");
            assert_eq!(second, "b");
        },
        _ => panic!("expected an idempotence error"),
    }
}

#[test]
fn redundant_hardlines_collapse() {
    // Hardlines from two independent rules at adjacent anchors produce one
    // line break.
    let tree = SyntaxTree { nodes: vec![leaf(1, 0, 1, None), leaf(2, 1, 2, None)] };
    let doc = load_document(&vec![
        RawRule { kind: 1, within: None, captures: vec![cap("append_hardline", 0, "")] },
        RawRule { kind: 2, within: None, captures: vec![cap("prepend_hardline", 0, "")] },
    ])
    .unwrap();
    let cfg = Config::default();
    let out = format_pass("xy", &tree, &doc, &cfg).unwrap();
    assert_eq!(out, "x\ny");
}
