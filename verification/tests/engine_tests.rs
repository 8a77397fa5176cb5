use breadcrumbs::colors::ColorError;
use breadcrumbs::preprocess::attributes_as_comments;
use breadcrumbs::preprocess::strip_directive_lines;
use breadcrumbs::syntax_matcher::ConfigError;
use breadcrumbs::syntax_matcher::GroupConfig;
use breadcrumbs::syntax_matcher::MatchedSyntaxItem;
use breadcrumbs::syntax_matcher::SyntaxItem;
use breadcrumbs::syntax_matcher::SyntaxItemType;
use breadcrumbs::syntax_matcher::SyntaxMatcher;

fn group(name: &str, patterns: &[&str]) -> GroupConfig {
    GroupConfig {
        name: name.to_string(),
        patterns: patterns.iter().map(|p| p.to_string()).collect(),
        if_defined: None,
        or_else: None,
    }
}

fn conditional_group(
    name: &str,
    patterns: &[&str],
    if_defined: &str,
    or_else: Option<&str>,
) -> GroupConfig {
    GroupConfig {
        name: name.to_string(),
        patterns: patterns.iter().map(|p| p.to_string()).collect(),
        if_defined: Some(if_defined.to_string()),
        or_else: or_else.map(|o| o.to_string()),
    }
}

#[test]
fn from_groups_rejects_empty_pattern_list() {
    let r = SyntaxMatcher::from_groups(vec![group("g", &[])], vec![]);
    assert_eq!(r.err(), Some(ConfigError::EmptyPatternList("g".to_string())));
}

#[test]
fn from_groups_rejects_empty_term() {
    // A doubled space splits into an empty token.
    let r = SyntaxMatcher::from_groups(vec![group("g", &["a  b"])], vec![]);
    assert_eq!(r.err(), Some(ConfigError::EmptyTerm("g".to_string())));
}

#[test]
fn from_groups_rejects_dangling_condition() {
    let r = SyntaxMatcher::from_groups(
        vec![conditional_group("g", &["a"], "missing", None)],
        vec![],
    );
    assert_eq!(r.err(), Some(ConfigError::UndefinedGroup("missing".to_string())));
}

#[test]
fn from_groups_rejects_dangling_fallback() {
    let r = SyntaxMatcher::from_groups(
        vec![
            group("other", &["x"]),
            conditional_group("g", &["a"], "other", Some("nowhere")),
        ],
        vec![],
    );
    assert_eq!(r.err(), Some(ConfigError::UndefinedGroup("nowhere".to_string())));
}

#[test]
fn from_groups_accepts_forward_reference() {
    let r = SyntaxMatcher::from_groups(
        vec![
            conditional_group("g", &["a"], "later", None),
            group("later", &["x"]),
        ],
        vec![],
    );
    assert!(r.is_ok());
}

// A match on a located node yields one raw span; resolution turns it
// into a per-line span with the covered text.
#[test]
fn single_match_resolves() {
    let mut m = SyntaxMatcher::from_groups(vec![group("kw", &["KeywordNode"])], vec![]).unwrap();
    let code = "foo bar";
    m.enter("KeywordNode", Some((4, 3)));
    m.leave("KeywordNode");
    let out = m.compute(code);
    assert_eq!(
        out,
        vec![MatchedSyntaxItem {
            group: "kw".to_string(),
            line: 1,
            col_start: 4,
            col_end: 7,
            matched: "bar".to_string(),
        }]
    );
}

// An enter without a locate advances the matchers but records no span.
#[test]
fn unlocated_enter_records_nothing() {
    let mut m = SyntaxMatcher::from_groups(vec![group("kw", &["KeywordNode"])], vec![]).unwrap();
    m.enter("KeywordNode", None);
    m.leave("KeywordNode");
    let out = m.compute("foo");
    assert_eq!(out, vec![]);
}

// Identical raw spans collapse to one resolved span.
#[test]
fn duplicate_spans_are_deduplicated() {
    // Two identical alternatives fire on the same node.
    let mut m = SyntaxMatcher::from_groups(
        vec![group("kw", &["KeywordNode", "KeywordNode"])],
        vec![],
    )
    .unwrap();
    m.enter("KeywordNode", Some((0, 3)));
    m.leave("KeywordNode");
    let out = m.compute("foo");
    assert_eq!(out.len(), 1);
    assert_eq!(out[0].matched, "foo");
}

// Conditional resolution: a span whose text is also matched by the
// required group keeps its own group; one whose text is not falls back.
#[test]
fn conditional_resolution() {
    let groups = vec![
        group("Keyword", &["KeywordNode"]),
        group("Identifier", &["NoSuchNode"]),
        conditional_group("Special", &["IdentNode"], "Keyword", Some("Identifier")),
    ];
    let mut m = SyntaxMatcher::from_groups(groups, vec![]).unwrap();
    let code = "foo foo bar";
    // "foo" is matched unconditionally by Keyword ...
    m.enter("KeywordNode", Some((0, 3)));
    m.leave("KeywordNode");
    // ... and conditionally by Special at its second occurrence,
    m.enter("IdentNode", Some((4, 3)));
    m.leave("IdentNode");
    // while "bar" is matched only conditionally.
    m.enter("IdentNode", Some((8, 3)));
    m.leave("IdentNode");
    let out = m.compute(code);
    assert_eq!(out.len(), 3);
    assert_eq!(out[0].group, "Keyword");
    assert_eq!(out[0].matched, "foo");
    assert_eq!(out[1].group, "Special");
    assert_eq!(out[1].matched, "foo");
    assert_eq!(out[1].col_start, 4);
    assert_eq!(out[2].group, "Identifier");
    assert_eq!(out[2].matched, "bar");
    assert_eq!(out[2].col_start, 8);
}

// A span requiring a group with no fallback is dropped when its text is
// not matched there.
#[test]
fn conditional_without_fallback_drops() {
    let groups = vec![
        group("Keyword", &["KeywordNode"]),
        conditional_group("Special", &["IdentNode"], "Keyword", None),
    ];
    let mut m = SyntaxMatcher::from_groups(groups, vec![]).unwrap();
    m.enter("IdentNode", Some((0, 3)));
    m.leave("IdentNode");
    let out = m.compute("bar");
    assert_eq!(out, vec![]);
}

// Multi-line span splitting: a range over three lines yields exactly
// three per-line spans.
#[test]
fn multi_line_span_splits_in_three() {
    let code = "abc\ndef\nghi";
    let item = SyntaxItem {
        group: "g".to_string(),
        col_start: 1,
        col_end: 9,
        syntax_type: SyntaxItemType::Always,
    };
    let out = MatchedSyntaxItem::from_unmatched(item, code);
    assert_eq!(out.len(), 3);
    assert_eq!((out[0].line, out[0].col_start, out[0].col_end), (1, 1, 3));
    assert_eq!(out[0].matched, "bc");
    assert_eq!((out[1].line, out[1].col_start, out[1].col_end), (2, 0, 3));
    assert_eq!(out[1].matched, "def");
    assert_eq!((out[2].line, out[2].col_start, out[2].col_end), (3, 0, 1));
    assert_eq!(out[2].matched, "g");
}

#[test]
fn range_to_lines_cols_exact() {
    let segs = MatchedSyntaxItem::range_to_lines_cols(1, 8, "abc\ndef\nghi");
    assert_eq!(segs, vec![(0, 1, 3), (1, 0, 3), (2, 0, 1)]);
}

// Resolving an empty raw-span collection yields an empty collection.
#[test]
fn empty_resolution_is_empty() {
    let m = SyntaxMatcher::from_groups(vec![group("kw", &["K"])], vec![]).unwrap();
    assert_eq!(m.compute("some text"), vec![]);
}

// Unconditional single-line spans come through unchanged, aside from
// the flat range turning into line and columns.
#[test]
fn single_line_spans_round_trip() {
    let mut m = SyntaxMatcher::from_groups(vec![group("kw", &["K"])], vec![]).unwrap();
    let code = "one\ntwo";
    m.enter("K", Some((0, 3)));
    m.leave("K");
    m.enter("K", Some((4, 3)));
    m.leave("K");
    let out = m.compute(code);
    assert_eq!(out.len(), 2);
    assert_eq!((out[0].line, out[0].col_start, out[0].col_end), (1, 0, 3));
    assert_eq!(out[0].matched, "one");
    assert_eq!((out[1].line, out[1].col_start, out[1].col_end), (2, 0, 3));
    assert_eq!(out[1].matched, "two");
}

// A nested pattern only fires beneath the full required chain.
#[test]
fn engine_nested_pattern() {
    let mut m =
        SyntaxMatcher::from_groups(vec![group("deep", &["Outer Inner"])], vec![]).unwrap();
    m.enter("Outer", Some((0, 1)));
    m.enter("Other", Some((1, 1)));
    m.leave("Other");
    m.enter("Inner", Some((2, 1)));
    m.enter("Leaf", Some((3, 1)));
    m.leave("Leaf");
    m.leave("Inner");
    m.leave("Outer");
    let out = m.compute("abcdef");
    // Inner satisfies the chain; Leaf is a qualifying descendant.
    assert_eq!(out.len(), 2);
    assert_eq!(out[0].matched, "c");
    assert_eq!(out[1].matched, "d");
}

#[test]
fn colors_to_ansi_exact() {
    let m = SyntaxMatcher::from_groups(
        vec![group("kw", &["K"])],
        vec![(
            "kw".to_string(),
            "ctermfg=117 cterm=bold,italic guifg=#ffffff".to_string(),
        )],
    )
    .unwrap();
    let table = m.get_colors_as_ansi().unwrap();
    assert_eq!(table, vec![("kw".to_string(), "\x1b[38;5;117;1;3m".to_string())]);
}

#[test]
fn colors_underline_alone() {
    let m = SyntaxMatcher::from_groups(
        vec![group("kw", &["K"])],
        vec![("kw".to_string(), "cterm=underline".to_string())],
    )
    .unwrap();
    let table = m.get_colors_as_ansi().unwrap();
    assert_eq!(table, vec![("kw".to_string(), "\x1b[4m".to_string())]);
}

#[test]
fn colors_unknown_attribute_reported() {
    let m = SyntaxMatcher::from_groups(
        vec![group("kw", &["K"])],
        vec![("kw".to_string(), "cterm=blink".to_string())],
    )
    .unwrap();
    assert_eq!(
        m.get_colors_as_ansi().err(),
        Some(ColorError::UnknownCterm("blink".to_string()))
    );
}

#[test]
fn colors_unknown_command_reported() {
    let m = SyntaxMatcher::from_groups(
        vec![group("kw", &["K"])],
        vec![("kw".to_string(), "weird=1".to_string())],
    )
    .unwrap();
    assert_eq!(
        m.get_colors_as_ansi().err(),
        Some(ColorError::UnknownCommand("weird".to_string()))
    );
}

#[test]
fn colors_missing_value_reported() {
    let m = SyntaxMatcher::from_groups(
        vec![group("kw", &["K"])],
        vec![("kw".to_string(), "ctermfg".to_string())],
    )
    .unwrap();
    assert_eq!(
        m.get_colors_as_ansi().err(),
        Some(ColorError::MissingValue("ctermfg".to_string()))
    );
}

#[test]
fn get_colors_returns_table() {
    let m = SyntaxMatcher::from_groups(
        vec![group("kw", &["K"])],
        vec![("kw".to_string(), "ctermfg=1".to_string())],
    )
    .unwrap();
    assert_eq!(
        m.get_colors(),
        vec![("kw".to_string(), "ctermfg=1".to_string())]
    );
}

#[test]
fn strip_directive_lines_removes_tails() {
    assert_eq!(
        strip_directive_lines("a `define X 1\nb\n`timescale 1ns"),
        "a \nb\n"
    );
    assert_eq!(strip_directive_lines("no directives\nat all"), "no directives\nat all");
}

#[test]
fn attributes_become_comments() {
    assert_eq!(attributes_as_comments("(* mark *) wire w;"), "/* mark */ wire w;");
    assert_eq!(attributes_as_comments("a (* b"), "a /* b");
}

// An excluded term written with the `^` prefix suspends matching while
// its node is open.
#[test]
fn engine_exclusion_pattern() {
    let mut m =
        SyntaxMatcher::from_groups(vec![group("g", &["A ^B C"])], vec![]).unwrap();
    m.enter("A", None);
    m.enter("B", None);
    m.enter("C", Some((0, 1)));
    m.leave("C");
    m.leave("B");
    m.enter("C", Some((1, 1)));
    m.leave("C");
    m.leave("A");
    let out = m.compute("xy");
    assert_eq!(out.len(), 1);
    assert_eq!(out[0].matched, "y");
}
