//! Whole runs on sources that a real parser has read.

use oxc_allocator::Allocator;
use oxc_ast::ast::{
    BindingIdentifier, IdentifierName, IdentifierReference, ImportDeclaration,
    ImportDeclarationSpecifier, JSXMemberExpression, JSXMemberExpressionObject, ModuleExportName,
    StaticMemberExpression,
};
use oxc_ast_visit::{walk, Visit};
use oxc_parser::Parser;
use oxc_span::SourceType;
use zmod::rules::{AddImport, ImportTransforms, ReplaceTextRule, TextMap, TransformOptions};
use zmod::syntax;
use zmod::syntax::{ParsedModule, SyntaxNode};
use zmod::transform::{try_transform_code, TransformResult};

fn text(s: &str) -> Vec<u8> {
    s.as_bytes().to_vec()
}

fn span_of(span: oxc_span::Span) -> syntax::Span {
    syntax::Span { start: span.start as usize, end: span.end as usize }
}

fn export_name<'b>(name: &'b ModuleExportName<'_>) -> &'b str {
    match name {
        ModuleExportName::IdentifierName(id) => id.name.as_str(),
        ModuleExportName::IdentifierReference(id) => id.name.as_str(),
        ModuleExportName::StringLiteral(s) => s.value.as_str(),
    }
}

struct TreeBuilder {
    open: Vec<Vec<SyntaxNode>>,
}

impl TreeBuilder {
    fn add(&mut self, node: SyntaxNode) {
        self.open.last_mut().expect("a list is open").push(node);
    }

    fn identifier(&mut self, span: oxc_span::Span, name: &str) {
        self.add(SyntaxNode::Identifier(syntax::Identifier { span: span_of(span), name: text(name) }));
    }
}

impl<'a> Visit<'a> for TreeBuilder {
    fn visit_identifier_reference(&mut self, ident: &IdentifierReference<'a>) {
        self.identifier(ident.span, ident.name.as_str());
        walk::walk_identifier_reference(self, ident);
    }

    fn visit_identifier_name(&mut self, ident: &IdentifierName<'a>) {
        self.identifier(ident.span, ident.name.as_str());
        walk::walk_identifier_name(self, ident);
    }

    fn visit_binding_identifier(&mut self, ident: &BindingIdentifier<'a>) {
        self.identifier(ident.span, ident.name.as_str());
        walk::walk_binding_identifier(self, ident);
    }

    fn visit_import_declaration(&mut self, decl: &ImportDeclaration<'a>) {
        let mut specifiers = Vec::new();
        if let Some(list) = &decl.specifiers {
            for specifier in list.iter() {
                specifiers.push(match specifier {
                    ImportDeclarationSpecifier::ImportSpecifier(s) => syntax::ImportSpecifier::Named {
                        span: span_of(s.span),
                        imported: text(export_name(&s.imported)),
                        local: syntax::Identifier {
                            span: span_of(s.local.span),
                            name: text(s.local.name.as_str()),
                        },
                    },
                    ImportDeclarationSpecifier::ImportDefaultSpecifier(s) => {
                        syntax::ImportSpecifier::Default {
                            span: span_of(s.span),
                            local: syntax::Identifier {
                                span: span_of(s.local.span),
                                name: text(s.local.name.as_str()),
                            },
                        }
                    }
                    ImportDeclarationSpecifier::ImportNamespaceSpecifier(s) => {
                        syntax::ImportSpecifier::Namespace {
                            span: span_of(s.span),
                            local: syntax::Identifier {
                                span: span_of(s.local.span),
                                name: text(s.local.name.as_str()),
                            },
                        }
                    }
                });
            }
        }
        let declaration = syntax::ImportDeclaration {
            span: span_of(decl.span),
            source: syntax::StringLiteral {
                span: span_of(decl.source.span),
                value: text(decl.source.value.as_str()),
            },
            specifiers,
        };
        self.open.push(Vec::new());
        walk::walk_import_declaration(self, decl);
        let children = self.open.pop().expect("a list is open");
        self.add(SyntaxNode::ImportDeclaration { declaration, children });
    }

    fn visit_jsx_member_expression(&mut self, expr: &JSXMemberExpression<'a>) {
        let object_end = match &expr.object {
            JSXMemberExpressionObject::IdentifierReference(id) => id.span.end,
            JSXMemberExpressionObject::MemberExpression(me) => me.span.end,
            JSXMemberExpressionObject::ThisExpression(te) => te.span.end,
        };
        let expression = syntax::JsxMemberExpression {
            span: span_of(expr.span),
            object_end: object_end as usize,
            property: text(expr.property.name.as_str()),
        };
        self.open.push(Vec::new());
        walk::walk_jsx_member_expression(self, expr);
        let children = self.open.pop().expect("a list is open");
        self.add(SyntaxNode::JsxMemberExpression { expression, children });
    }

    fn visit_static_member_expression(&mut self, expr: &StaticMemberExpression<'a>) {
        self.open.push(Vec::new());
        walk::walk_static_member_expression(self, expr);
        let children = self.open.pop().expect("a list is open");
        self.add(SyntaxNode::StaticMemberExpression { span: span_of(expr.span), children });
    }
}

fn parse(code: &str) -> ParsedModule {
    let allocator = Allocator::default();
    let parsed = Parser::new(&allocator, code, SourceType::tsx()).parse();
    let errors: Vec<Vec<u8>> = parsed.errors.iter().map(|e| text(&format!("{}", e))).collect();
    let mut builder = TreeBuilder { open: vec![Vec::new()] };
    if errors.is_empty() {
        builder.visit_program(&parsed.program);
    }
    let body = builder.open.pop().expect("the body is open");
    ParsedModule { errors, body }
}

fn run(code: &str, options: &TransformOptions) -> TransformResult {
    let parsed = parse(code);
    try_transform_code(code.as_bytes(), &parsed, options).expect("the run is defined")
}

fn output(result: &TransformResult) -> String {
    String::from_utf8(result.output.clone().expect("an output")).expect("UTF-8")
}

fn no_rules() -> TransformOptions {
    TransformOptions { renames: None, imports: None, remove_jsx_member_suffix: None, replace_text: None }
}

fn no_import_rules() -> ImportTransforms {
    ImportTransforms {
        replace_source: None,
        rename_specifier: None,
        remove_specifier: None,
        add_import: None,
    }
}

fn map_of(pairs: &[(&str, &str)]) -> TextMap {
    let mut map = TextMap::new();
    for (key, value) in pairs {
        map.insert(text(key), text(value));
    }
    map
}

#[test]
fn parsed_removing_the_middle_specifier_keeps_one_comma() {
    let mut options = no_rules();
    options.imports =
        Some(ImportTransforms { remove_specifier: Some(vec![text("b")]), ..no_import_rules() });
    let result = run("import { a, b, c } from \"x\"", &options);
    assert!(result.success && result.modified);
    assert_eq!(output(&result), "import { a, c } from \"x\"");
}

#[test]
fn parsed_removing_the_last_specifier_takes_the_comma_before_it() {
    let mut options = no_rules();
    options.imports =
        Some(ImportTransforms { remove_specifier: Some(vec![text("c")]), ..no_import_rules() });
    let result = run("import { a, b, c } from \"x\"", &options);
    assert_eq!(output(&result), "import { a, b } from \"x\"");
}

#[test]
fn parsed_removing_the_only_specifier_removes_the_line() {
    let mut options = no_rules();
    options.imports =
        Some(ImportTransforms { remove_specifier: Some(vec![text("a")]), ..no_import_rules() });
    let result = run("import { a } from \"x\"\nconst z = 1;\n", &options);
    assert_eq!(output(&result), "const z = 1;\n");
    let alone = run("import { a } from \"x\"\n", &options);
    assert!(alone.modified);
    assert_eq!(output(&alone), "");
}

#[test]
fn parsed_source_replacement_keeps_the_quotes() {
    let mut options = no_rules();
    options.imports = Some(ImportTransforms {
        replace_source: Some(map_of(&[("old-pkg", "new-pkg")])),
        ..no_import_rules()
    });
    let double = run("import x from \"old-pkg\"", &options);
    assert_eq!(output(&double), "import x from \"new-pkg\"");
    let single = run("import x from 'old-pkg'", &options);
    assert_eq!(output(&single), "import x from 'new-pkg'");
}

#[test]
fn parsed_jsx_suffix_is_stripped_from_both_tags() {
    let mut options = no_rules();
    options.remove_jsx_member_suffix = Some(vec![text("Provider")]);
    let result = run("const a = <Context.Provider value={1}></Context.Provider>;", &options);
    assert_eq!(output(&result), "const a = <Context value={1}></Context>;");
}

#[test]
fn parsed_renames_settle_after_one_run() {
    let mut options = no_rules();
    options.renames = Some(map_of(&[("foo", "bar")]));
    let first = run("const foo = 1;\nuse(foo, obj.foo);\n", &options);
    assert!(first.modified);
    let once = output(&first);
    assert_eq!(once, "const bar = 1;\nuse(bar, obj.bar);\n");
    let second = run(&once, &options);
    assert!(second.success);
    assert!(!second.modified);
    assert_eq!(second.output, None);
}

#[test]
fn parsed_cyclic_renames_keep_toggling() {
    let mut options = no_rules();
    options.renames = Some(map_of(&[("foo", "bar"), ("bar", "foo")]));
    let first = run("foo(bar);", &options);
    assert_eq!(output(&first), "bar(foo);");
    let second = run(&output(&first), &options);
    assert!(second.modified);
    assert_eq!(output(&second), "foo(bar);");
}

#[test]
fn parsed_replaced_member_expression_is_not_renamed_inside() {
    let mut options = no_rules();
    options.renames = Some(map_of(&[("React", "Preact")]));
    options.replace_text = Some(vec![ReplaceTextRule {
        match_text: text("React.PropTypes"),
        replace: text("PropTypes"),
        context: None,
    }]);
    let result = run("const t = React.PropTypes;\nconst c = React.Component;\n", &options);
    assert_eq!(output(&result), "const t = PropTypes;\nconst c = Preact.Component;\n");
}

#[test]
fn parsed_source_without_a_match_is_left_alone() {
    let mut options = no_rules();
    options.renames = Some(map_of(&[("nothing", "anything")]));
    options.remove_jsx_member_suffix = Some(vec![text("Provider")]);
    let result = run("// a comment\nconst a   =  <div>hi</div>;\n", &options);
    assert!(result.success);
    assert!(!result.modified);
    assert_eq!(result.output, None);
    assert_eq!(result.error, None);
}

#[test]
fn parsed_syntax_error_fails_the_run() {
    let result = run("const = ;", &no_rules());
    assert!(!result.success);
    assert!(!result.modified);
    assert_eq!(result.output, None);
    let message = String::from_utf8(result.error.expect("a message")).expect("UTF-8");
    let reported: Vec<String> = parse("const = ;")
        .errors
        .into_iter()
        .map(|e| String::from_utf8(e).expect("UTF-8"))
        .collect();
    assert!(!reported.is_empty());
    assert_eq!(message, reported.join("; "));
    assert!(!message.is_empty());
}

#[test]
fn parsed_added_import_goes_in_front_untouched() {
    let mut options = no_rules();
    options.imports = Some(ImportTransforms {
        add_import: Some(vec![AddImport {
            from: text("react"),
            names: Some(vec![text("useState")]),
            default_name: Some(text("React")),
        }]),
        ..no_import_rules()
    });
    let result = run("const  a = 1; // kept\n", &options);
    assert_eq!(output(&result), "import React, { useState } from \"react\";\nconst  a = 1; // kept\n");
}

#[test]
fn parsed_formatting_outside_the_edits_is_kept() {
    let mut options = no_rules();
    options.renames = Some(map_of(&[("x", "longer")]));
    let result = run("let   x\t= /* c */ 1 ;\n\n\nx  ++ ;", &options);
    assert_eq!(output(&result), "let   longer\t= /* c */ 1 ;\n\n\nlonger  ++ ;");
}


#[test]
fn parsed_rename_specifier_wins_over_rename_on_the_same_span() {
    let mut options = no_rules();
    options.renames = Some(map_of(&[("foo", "A")]));
    options.imports = Some(ImportTransforms {
        rename_specifier: Some(map_of(&[("foo", "B")])),
        ..no_import_rules()
    });
    let result = run("import { foo } from 'x'", &options);
    assert_eq!(output(&result), "import { B } from 'x'");
}

#[test]
fn parsed_rename_specifier_without_alias_replaces_the_specifier() {
    let mut options = no_rules();
    options.imports = Some(ImportTransforms {
        rename_specifier: Some(map_of(&[("foo", "bar")])),
        ..no_import_rules()
    });
    let result = run("import { foo, other } from 'x'", &options);
    assert_eq!(output(&result), "import { bar, other } from 'x'");
}

#[test]
fn parsed_rename_specifier_with_alias_replaces_the_local_part() {
    let mut options = no_rules();
    options.imports = Some(ImportTransforms {
        rename_specifier: Some(map_of(&[("bar", "baz")])),
        ..no_import_rules()
    });
    let result = run("import { foo as bar } from 'x'", &options);
    assert_eq!(output(&result), "import { foo as baz } from 'x'");
}

#[test]
fn parsed_rename_specifier_reaches_default_and_namespace_bindings() {
    let mut options = no_rules();
    options.imports = Some(ImportTransforms {
        rename_specifier: Some(map_of(&[("React", "Preact"), ("ns", "all")])),
        ..no_import_rules()
    });
    let result = run("import React from 'react';\nimport * as ns from 'lib';\n", &options);
    assert_eq!(output(&result), "import Preact from 'react';\nimport * as all from 'lib';\n");
}

#[test]
fn parsed_removed_specifier_is_not_renamed() {
    let mut options = no_rules();
    options.imports = Some(ImportTransforms {
        rename_specifier: Some(map_of(&[("b", "renamed")])),
        remove_specifier: Some(vec![text("b")]),
        ..no_import_rules()
    });
    let result = run("import { a, b } from 'x'", &options);
    assert_eq!(output(&result), "import { a } from 'x'");
}

#[test]
fn parsed_removal_matches_the_imported_name_of_an_alias() {
    let mut options = no_rules();
    options.imports =
        Some(ImportTransforms { remove_specifier: Some(vec![text("a")]), ..no_import_rules() });
    let result = run("import { a as b, c } from \"x\"", &options);
    assert_eq!(output(&result), "import { c } from \"x\"");
}

#[test]
fn parsed_removal_of_the_default_binding_keeps_the_named_ones() {
    let mut options = no_rules();
    options.imports =
        Some(ImportTransforms { remove_specifier: Some(vec![text("React")]), ..no_import_rules() });
    let result = run("import React, { useState } from \"react\"", &options);
    assert_eq!(output(&result), "import { useState } from \"react\"");
}

#[test]
fn parsed_removal_without_a_comma_on_either_side_takes_the_name_only() {
    let mut options = no_rules();
    options.imports = Some(ImportTransforms {
        remove_specifier: Some(vec![text("useState")]),
        ..no_import_rules()
    });
    let result = run("import React, { useState } from \"react\"", &options);
    assert_eq!(output(&result), "import React, {  } from \"react\"");
}

#[test]
fn parsed_removal_of_two_neighbours_leaves_a_clean_list() {
    let mut options = no_rules();
    options.imports = Some(ImportTransforms {
        remove_specifier: Some(vec![text("b"), text("c")]),
        ..no_import_rules()
    });
    let result = run("import { a, b, c, d } from \"x\"", &options);
    assert_eq!(output(&result), "import { a, d } from \"x\"");
}

#[test]
fn parsed_removal_of_every_specifier_removes_the_declaration() {
    let mut options = no_rules();
    options.imports = Some(ImportTransforms {
        remove_specifier: Some(vec![text("a"), text("b")]),
        ..no_import_rules()
    });
    let result = run("import { a, b } from \"x\"\nfoo();", &options);
    assert_eq!(output(&result), "foo();");
    let windows = run("import { a, b } from \"x\"\r\nfoo();", &options);
    assert_eq!(output(&windows), "\r\nfoo();");
}

#[test]
fn parsed_removal_steps_over_unicode_white_space_before_the_comma() {
    let mut options = no_rules();
    options.imports =
        Some(ImportTransforms { remove_specifier: Some(vec![text("a")]), ..no_import_rules() });
    let result = run("import { a\u{a0}, b } from \"x\"", &options);
    assert_eq!(output(&result), "import { b } from \"x\"");
}

#[test]
fn parsed_removal_steps_back_over_unicode_white_space_to_the_comma() {
    let mut options = no_rules();
    options.imports =
        Some(ImportTransforms { remove_specifier: Some(vec![text("b")]), ..no_import_rules() });
    let result = run("import { a ,\u{2003}b } from \"x\"", &options);
    assert_eq!(output(&result), "import { a  } from \"x\"");
}

#[test]
fn parsed_removal_takes_only_plain_spaces_behind_the_comma() {
    let mut options = no_rules();
    options.imports =
        Some(ImportTransforms { remove_specifier: Some(vec![text("a")]), ..no_import_rules() });
    let result = run("import { a,  \n  b } from \"x\"", &options);
    assert_eq!(output(&result), "import { \n  b } from \"x\"");
}

#[test]
fn parsed_member_expression_rule_with_its_marker() {
    let mut options = no_rules();
    options.replace_text = Some(vec![ReplaceTextRule {
        match_text: text("a.b"),
        replace: text("c"),
        context: Some(text("member-expression")),
    }]);
    let result = run("use(a.b, a.b.d, x.a.b);", &options);
    assert_eq!(output(&result), "use(c, c.d, x.a.b);");
}

#[test]
fn parsed_first_matching_rule_replaces_the_member_expression() {
    let mut options = no_rules();
    options.replace_text = Some(vec![
        ReplaceTextRule { match_text: text("a.b"), replace: text("never"), context: Some(text("other")) },
        ReplaceTextRule { match_text: text("a.b"), replace: text("first"), context: None },
        ReplaceTextRule { match_text: text("a.b"), replace: text("second"), context: None },
    ]);
    let result = run("a.b;", &options);
    assert_eq!(output(&result), "first;");
}

#[test]
fn parsed_plain_text_rule_reaches_every_occurrence() {
    let mut options = no_rules();
    options.replace_text = Some(vec![ReplaceTextRule {
        match_text: text("old/path"),
        replace: text("new"),
        context: Some(text("string-literal")),
    }]);
    let result = run("const a = \"old/path\"; // old/path\nimport b from 'old/path/b';\n", &options);
    assert_eq!(output(&result), "const a = \"new\"; // new\nimport b from 'new/b';\n");
}

#[test]
fn parsed_plain_text_rule_does_not_look_at_member_expressions() {
    let mut options = no_rules();
    options.replace_text = Some(vec![ReplaceTextRule {
        match_text: text("zz"),
        replace: text("y"),
        context: Some(text("import-source")),
    }]);
    let result = run("a.b;", &options);
    assert!(!result.modified);
    let other = run("zzz.zzzz;", &options);
    assert_eq!(output(&other), "yz.yy;");
}

#[test]
fn parsed_unknown_context_is_ignored() {
    let mut options = no_rules();
    options.replace_text = Some(vec![ReplaceTextRule {
        match_text: text("a.b"),
        replace: text("c"),
        context: Some(text("comment")),
    }]);
    let result = run("a.b;", &options);
    assert!(result.success);
    assert!(!result.modified);
}

#[test]
fn parsed_nested_jsx_member_loses_only_the_listed_suffix() {
    let mut options = no_rules();
    options.remove_jsx_member_suffix = Some(vec![text("Consumer")]);
    let result = run("const a = <A.B.Consumer />;\nconst b = <A.Consumer.C />;\n", &options);
    assert_eq!(output(&result), "const a = <A.B />;\nconst b = <A.C />;\n");
}

#[test]
fn parsed_jsx_object_is_still_renamed() {
    let mut options = no_rules();
    options.remove_jsx_member_suffix = Some(vec![text("Provider")]);
    options.renames = Some(map_of(&[("Context", "Ctx"), ("Provider", "Untouched")]));
    let result = run("const a = <Context.Provider />;", &options);
    assert_eq!(output(&result), "const a = <Ctx />;");
}

#[test]
fn parsed_renamed_identifier_inside_a_removed_declaration() {
    let mut options = no_rules();
    options.renames = Some(map_of(&[("a", "z")]));
    options.imports =
        Some(ImportTransforms { remove_specifier: Some(vec![text("a")]), ..no_import_rules() });
    let result = run("import { a } from \"x\"\na();\n", &options);
    assert_eq!(output(&result), "z();\n");
}

#[test]
fn parsed_edits_that_cannot_be_applied_are_refused() {
    let mut options = no_rules();
    options.replace_text = Some(vec![
        ReplaceTextRule { match_text: text("ab.cd"), replace: text(""), context: None },
        ReplaceTextRule {
            match_text: text("ab"),
            replace: text("x"),
            context: Some(text("string-literal")),
        },
    ]);
    let code = "ab.cd";
    let parsed = parse(code);
    assert!(parsed.errors.is_empty());
    assert!(try_transform_code(code.as_bytes(), &parsed, &options).is_none());
}
