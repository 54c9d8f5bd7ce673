//! The rule set's parts and the tree's bounds.

use zmod::collection::Collection;
use zmod::prefix::{build_import_statement, build_prefix};
use zmod::rules::{
    is_listed, lookup, AddImport, ImportTransforms, ReplaceTextRule, TextMap, TransformOptions,
};
use zmod::syntax::{
    forest_is_within, node_is_within, Identifier, ImportDeclaration, ImportSpecifier,
    JsxMemberExpression, Span, StringLiteral, SyntaxNode,
};

fn text(s: &str) -> Vec<u8> {
    s.as_bytes().to_vec()
}

#[test]
fn text_map_holds_the_last_value_of_a_key() {
    let mut map = TextMap::new();
    assert_eq!(map.get(b"a"), None);
    map.insert(text("a"), text("1"));
    map.insert(text("b"), text("2"));
    map.insert(text("a"), text("3"));
    assert_eq!(map.get(b"a"), Some(&text("3")));
    assert_eq!(map.get(b"b"), Some(&text("2")));
    assert_eq!(map.get(b"c"), None);
    assert_eq!(map.get(b""), None);
}

#[test]
fn text_map_hands_out_each_key_once() {
    let mut map = TextMap::new();
    assert!(map.entries().is_empty());
    map.insert(text("a"), text("1"));
    map.insert(text("b"), text("2"));
    map.insert(text("a"), text("3"));
    let mut pairs = map.entries();
    pairs.sort();
    assert_eq!(pairs, vec![(text("a"), text("3")), (text("b"), text("2"))]);
}

#[test]
fn lookup_in_no_map_finds_nothing() {
    assert_eq!(lookup(&None, b"a"), None);
    let mut map = TextMap::new();
    map.insert(text("a"), text("1"));
    let some = Some(map);
    assert_eq!(lookup(&some, b"a"), Some(&text("1")));
    assert_eq!(lookup(&some, b"b"), None);
}

#[test]
fn is_listed_in_no_list_is_false() {
    assert!(!is_listed(&None, b"a"));
    assert!(is_listed(&Some(vec![text("a")]), b"a"));
    assert!(!is_listed(&Some(vec![text("a")]), b"b"));
}

fn rule(context: Option<&str>, match_text: &str) -> ReplaceTextRule {
    ReplaceTextRule { match_text: text(match_text), replace: text("r"), context: context.map(text) }
}

#[test]
fn contexts_sort_the_rules() {
    assert!(rule(None, "m").is_structural());
    assert!(!rule(None, "m").is_plain_text());
    assert!(rule(Some("member-expression"), "m").is_structural());
    assert!(!rule(Some("member-expression"), "m").is_plain_text());
    assert!(rule(Some("string-literal"), "m").is_plain_text());
    assert!(!rule(Some("string-literal"), "m").is_structural());
    assert!(rule(Some("import-source"), "m").is_plain_text());
    assert!(!rule(Some("import-source"), "m").is_structural());
    assert!(!rule(Some("comment"), "m").is_plain_text());
    assert!(!rule(Some("comment"), "m").is_structural());
    assert!(!rule(Some(""), "m").is_structural());
}

#[test]
fn a_rule_set_is_well_formed_unless_a_scan_would_not_end() {
    let mut options = TransformOptions {
        renames: None,
        imports: None,
        remove_jsx_member_suffix: None,
        replace_text: None,
    };
    assert!(options.is_well_formed());
    options.replace_text = Some(vec![rule(None, ""), rule(Some("comment"), ""), rule(Some("string-literal"), "x")]);
    assert!(options.is_well_formed());
    options.replace_text = Some(vec![rule(Some("string-literal"), "x"), rule(Some("import-source"), "")]);
    assert!(!options.is_well_formed());
}

#[test]
fn statements_are_written_out_exactly() {
    let both = AddImport {
        from: text("react"),
        names: Some(vec![text("useState"), text("useEffect")]),
        default_name: Some(text("React")),
    };
    assert_eq!(
        build_import_statement(&both),
        text("import React, { useState, useEffect } from \"react\";\n")
    );
    let names = AddImport { from: text("m"), names: Some(vec![text("a")]), default_name: None };
    assert_eq!(build_import_statement(&names), text("import { a } from \"m\";\n"));
    let default_only = AddImport { from: text("m"), names: None, default_name: Some(text("M")) };
    assert_eq!(build_import_statement(&default_only), text("import M from \"m\";\n"));
    let neither = AddImport { from: text("./s.css"), names: None, default_name: None };
    assert_eq!(build_import_statement(&neither), text("import \"./s.css\";\n"));
    let empty_default = AddImport { from: text("m"), names: None, default_name: Some(Vec::new()) };
    assert_eq!(build_import_statement(&empty_default), text("import  from \"m\";\n"));
}

#[test]
fn the_prefix_is_every_statement_in_order() {
    let mut options = TransformOptions {
        renames: None,
        imports: None,
        remove_jsx_member_suffix: None,
        replace_text: None,
    };
    assert_eq!(build_prefix(&options), Vec::<u8>::new());
    options.imports = Some(ImportTransforms {
        replace_source: None,
        rename_specifier: None,
        remove_specifier: None,
        add_import: None,
    });
    assert_eq!(build_prefix(&options), Vec::<u8>::new());
    options.imports = Some(ImportTransforms {
        replace_source: None,
        rename_specifier: None,
        remove_specifier: None,
        add_import: Some(vec![
            AddImport { from: text("b"), names: None, default_name: Some(text("B")) },
            AddImport { from: text("a"), names: None, default_name: None },
        ]),
    });
    assert_eq!(build_prefix(&options), text("import B from \"b\";\nimport \"a\";\n"));
}

#[test]
fn spans_are_checked_against_the_source_length() {
    assert!(Span { start: 0, end: 0 }.is_within(0));
    assert!(Span { start: 2, end: 5 }.is_within(5));
    assert!(!Span { start: 2, end: 6 }.is_within(5));
    assert!(!Span { start: 3, end: 2 }.is_within(5));
}

fn identifier(start: usize, end: usize) -> Identifier {
    Identifier { span: Span { start, end }, name: text("n") }
}

#[test]
fn every_node_of_a_tree_is_checked() {
    let good = SyntaxNode::StaticMemberExpression {
        span: Span { start: 0, end: 5 },
        children: vec![
            SyntaxNode::Identifier(identifier(0, 2)),
            SyntaxNode::JsxMemberExpression {
                expression: JsxMemberExpression {
                    span: Span { start: 1, end: 4 },
                    object_end: 2,
                    property: text("p"),
                },
                children: vec![SyntaxNode::Identifier(identifier(3, 5))],
            },
        ],
    };
    assert!(node_is_within(&good, 5));
    assert!(!node_is_within(&good, 4));
    let bad_inside = vec![
        SyntaxNode::Identifier(identifier(0, 1)),
        SyntaxNode::StaticMemberExpression {
            span: Span { start: 0, end: 5 },
            children: vec![SyntaxNode::Identifier(identifier(4, 3))],
        },
    ];
    assert!(!forest_is_within(&bad_inside, 5));
    assert!(forest_is_within(&Vec::new(), 0));
    let jsx = SyntaxNode::JsxMemberExpression {
        expression: JsxMemberExpression {
            span: Span { start: 1, end: 4 },
            object_end: 5,
            property: text("p"),
        },
        children: Vec::new(),
    };
    assert!(!node_is_within(&jsx, 9));
}

#[test]
fn an_import_declaration_is_checked_with_its_specifiers() {
    let declaration = |source: Span, local: Span| ImportDeclaration {
        span: Span { start: 0, end: 20 },
        source: StringLiteral { span: source, value: text("m") },
        specifiers: vec![ImportSpecifier::Namespace {
            span: Span { start: 7, end: 13 },
            local: Identifier { span: local, name: text("ns") },
        }],
    };
    assert!(declaration(Span { start: 16, end: 19 }, Span { start: 12, end: 13 }).is_within(20));
    assert!(!declaration(Span { start: 16, end: 19 }, Span { start: 12, end: 13 }).is_within(19));
    assert!(!declaration(Span { start: 16, end: 17 }, Span { start: 12, end: 13 }).is_within(20));
    assert!(!declaration(Span { start: 16, end: 19 }, Span { start: 12, end: 30 }).is_within(20));
    let specifier = ImportSpecifier::Default {
        span: Span { start: 7, end: 9 },
        local: identifier(7, 9),
    };
    assert_eq!(specifier.span(), Span { start: 7, end: 9 });
    assert_eq!(specifier.local().span, Span { start: 7, end: 9 });
}

#[test]
fn collection_counts_its_nodes() {
    let full = Collection::new(vec![1u8, 2, 3], String::from("abc"));
    assert_eq!(full.len(), 3);
    assert!(!full.is_empty());
    let empty: Collection<u8> = Collection::new(Vec::new(), String::new());
    assert_eq!(empty.len(), 0);
    assert!(empty.is_empty());
}
