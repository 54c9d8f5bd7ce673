//! From rule matches to patches: one walk over the syntax tree, then a scan
//! of the raw text for the plain-text rules.

use crate::imports::{import_edits, lemma_import_edits_fit, visit_import_declaration};
use crate::patch::{all_fit, edits_of, lemma_all_fit_concat, push_patch, Edit, Patch};
use crate::rules::{
    is_listed, listed, mapped, mapped_edit, push_mapped, ReplaceTextRule, TransformOptions,
};
use crate::scan::{lemma_plain_text_edits_fit, plain_text_edits, scan_plain_text};
use crate::syntax::{
    forest_within, lemma_forest_within_prefix, node_within, Identifier, JsxMemberExpression, Span,
    SyntaxNode,
};
use crate::text::matches_at;
use vstd::prelude::*;

verus! {

/// An identifier whose text is a key of the renames is replaced, whatever its
/// syntactic role.
pub open spec fn identifier_edits(options: TransformOptions, identifier: Identifier) -> Seq<Edit> {
    mapped_edit(
        options.renames,
        identifier.name@,
        identifier.span.start as int,
        identifier.span.end as int,
    )
}

/// A JSX tag `Object.Property` whose property is listed loses `.Property`.
pub open spec fn jsx_edits(options: TransformOptions, expression: JsxMemberExpression) -> Seq<
    Edit,
> {
    if listed(options.remove_jsx_member_suffix).contains(expression.property@) {
        seq![
            Edit {
                start: expression.object_end as int,
                end: expression.span.end as int,
                text: Seq::empty(),
            },
        ]
    } else {
        Seq::empty()
    }
}

/// The rule looks at member expressions and its match text is the source
/// text of `span`.
pub open spec fn rule_matches(code: Seq<u8>, rule: ReplaceTextRule, span: Span) -> bool {
    rule.structural() && code.subrange(span.start as int, span.end as int) == rule.match_text@
}

/// Index of the first rule at or after `from` that matches `span`.
pub open spec fn first_match(code: Seq<u8>, rules: Seq<ReplaceTextRule>, span: Span, from: int) -> Option<
    int,
>
    decreases rules.len() - from,
{
    if from < 0 || from >= rules.len() {
        None
    } else if rule_matches(code, rules[from], span) {
        Some(from)
    } else {
        first_match(code, rules, span, from + 1)
    }
}

/// The text that replaces the member expression at `span`: that of the first
/// rule that matches it.
pub open spec fn member_replacement(code: Seq<u8>, options: TransformOptions, span: Span) -> Option<
    Seq<u8>,
> {
    match options.replace_text {
        Some(rules) => match first_match(code, rules@, span, 0) {
            Some(k) => Some(rules@[k].replace@),
            None => None,
        },
        None => None,
    }
}

/// The edits of a node and of the nodes inside it, in walk order: the node's
/// own edits come before those of its children. A member expression that a
/// rule replaces contributes that one edit and nothing from inside it.
pub open spec fn node_edits(code: Seq<u8>, options: TransformOptions, node: SyntaxNode) -> Seq<
    Edit,
>
    decreases node, 0nat,
{
    match node {
        SyntaxNode::Identifier(identifier) => identifier_edits(options, identifier),
        SyntaxNode::ImportDeclaration { declaration, children } => import_edits(
            code,
            options,
            declaration,
        ) + forest_edits(code, options, children@),
        SyntaxNode::JsxMemberExpression { expression, children } => jsx_edits(options, expression)
            + forest_edits(code, options, children@),
        SyntaxNode::StaticMemberExpression { span, children } => match member_replacement(
            code,
            options,
            span,
        ) {
            Some(text) => seq![Edit { start: span.start as int, end: span.end as int, text }],
            None => forest_edits(code, options, children@),
        },
    }
}

/// The edits of a list of sibling nodes, in source order.
pub open spec fn forest_edits(code: Seq<u8>, options: TransformOptions, nodes: Seq<SyntaxNode>) -> Seq<
    Edit,
>
    decreases nodes, 1nat,
{
    if nodes.len() == 0 {
        Seq::empty()
    } else {
        forest_edits(code, options, nodes.drop_last()) + node_edits(code, options, nodes.last())
    }
}

/// Every edit that the rule set asks for, in collection order: the walk over
/// the tree, then the scan of the raw text.
pub open spec fn collected_edits(code: Seq<u8>, options: TransformOptions, body: Seq<SyntaxNode>) -> Seq<
    Edit,
> {
    forest_edits(code, options, body) + plain_text_edits(code, options)
}

/// Renames an identifier whose text is a key of the renames.
pub fn visit_identifier(options: &TransformOptions, identifier: &Identifier, out: &mut Vec<Patch>)
    ensures
        edits_of(final(out)@) == edits_of(old(out)@) + identifier_edits(*options, *identifier),
{
    push_mapped(
        out,
        &options.renames,
        identifier.name.as_slice(),
        identifier.span.start,
        identifier.span.end,
    );
}

/// Strips `.Property` from a JSX tag `Object.Property` whose property is
/// listed.
pub fn visit_jsx_member_expression(
    options: &TransformOptions,
    expression: &JsxMemberExpression,
    out: &mut Vec<Patch>,
)
    ensures
        edits_of(final(out)@) == edits_of(old(out)@) + jsx_edits(*options, *expression),
{
    if is_listed(&options.remove_jsx_member_suffix, expression.property.as_slice()) {
        let empty: Vec<u8> = Vec::new();
        push_patch(out, expression.object_end, expression.span.end, empty.as_slice());
    }
    assert(edits_of(out@) =~= edits_of(old(out)@) + jsx_edits(*options, *expression));
}

/// Replaces a member expression whose source text is the match text of a
/// structural rule, and says whether the walk goes on into the expression:
/// it does not where the expression was replaced.
pub fn visit_static_member_expression(
    code: &[u8],
    options: &TransformOptions,
    span: Span,
    out: &mut Vec<Patch>,
) -> (descend: bool)
    requires
        span.within(code.len() as int),
    ensures
        descend == (member_replacement(code@, *options, span) is None),
        match member_replacement(code@, *options, span) {
            Some(text) => edits_of(final(out)@) == edits_of(old(out)@).push(
                Edit { start: span.start as int, end: span.end as int, text },
            ),
            None => final(out)@ == old(out)@,
        },
{
    let rules = match &options.replace_text {
        Some(rules) => rules,
        None => {
            return true;
        },
    };
    let mut i: usize = 0;
    while i < rules.len()
        invariant
            i <= rules.len(),
            span.within(code.len() as int),
            options.replace_text == Some(*rules),
            out@ == old(out)@,
            first_match(code@, rules@, span, 0) == first_match(code@, rules@, span, i as int),
        decreases rules.len() - i,
    {
        let rule = &rules[i];
        if rule.is_structural() && span.end - span.start == rule.match_text.len() && matches_at(
            code,
            rule.match_text.as_slice(),
            span.start,
        ) {
            assert(rule_matches(code@, rules@[i as int], span));
            push_patch(out, span.start, span.end, rule.replace.as_slice());
            return false;
        }
        assert(!rule_matches(code@, rules@[i as int], span)) by {
            if rule.structural() && code@.subrange(span.start as int, span.end as int)
                == rule.match_text@ {
                assert(code@.subrange(span.start as int, span.end as int).len() == span.end
                    - span.start);
            }
        }
        i = i + 1;
    }
    true
}

/// Collects the patches of a node and of the nodes inside it.
pub fn visit_node(code: &[u8], options: &TransformOptions, node: &SyntaxNode, out: &mut Vec<Patch>)
    requires
        node_within(*node, code.len() as int),
    ensures
        edits_of(final(out)@) == edits_of(old(out)@) + node_edits(code@, *options, *node),
    decreases *node, 0nat,
{
    let ghost base = edits_of(out@);
    match node {
        SyntaxNode::Identifier(identifier) => {
            visit_identifier(options, identifier, out);
        },
        SyntaxNode::ImportDeclaration { declaration, children } => {
            visit_import_declaration(code, options, declaration, out);
            visit_forest(code, options, children, out);
            assert(edits_of(out@) =~= base + node_edits(code@, *options, *node));
        },
        SyntaxNode::JsxMemberExpression { expression, children } => {
            visit_jsx_member_expression(options, expression, out);
            visit_forest(code, options, children, out);
            assert(edits_of(out@) =~= base + node_edits(code@, *options, *node));
        },
        SyntaxNode::StaticMemberExpression { span, children } => {
            if visit_static_member_expression(code, options, *span, out) {
                visit_forest(code, options, children, out);
            } else {
                assert(edits_of(out@) =~= base + node_edits(code@, *options, *node));
            }
        },
    }
}

/// Collects the patches of a list of sibling nodes, in source order.
pub fn visit_forest(
    code: &[u8],
    options: &TransformOptions,
    nodes: &Vec<SyntaxNode>,
    out: &mut Vec<Patch>,
)
    requires
        forest_within(nodes@, code.len() as int),
    ensures
        edits_of(final(out)@) == edits_of(old(out)@) + forest_edits(code@, *options, nodes@),
    decreases *nodes, 1nat,
{
    let ghost base = edits_of(out@);
    let mut i: usize = 0;
    assert(nodes@.take(0) =~= Seq::<SyntaxNode>::empty());
    assert(edits_of(out@) =~= base + forest_edits(code@, *options, nodes@.take(0)));
    while i < nodes.len()
        invariant
            i <= nodes.len(),
            forest_within(nodes@, code.len() as int),
            edits_of(out@) == base + forest_edits(code@, *options, nodes@.take(i as int)),
        decreases nodes.len() - i,
    {
        assert(nodes@.take(i + 1).drop_last() =~= nodes@.take(i as int));
        assert(decreases_to!(*nodes => nodes[i as int]));
        proof {
            lemma_forest_within_prefix(nodes@, i + 1, code.len() as int);
        }
        visit_node(code, options, &nodes[i], out);
        assert(edits_of(out@) =~= base + forest_edits(code@, *options, nodes@.take(i + 1)));
        i = i + 1;
    }
    assert(nodes@.take(i as int) =~= nodes@);
}

/// Collects every patch that the rule set asks for: the walk over the tree,
/// then the scan of the raw text.
pub fn collect_patches(code: &[u8], options: &TransformOptions, body: &Vec<SyntaxNode>) -> (patches:
    Vec<Patch>)
    requires
        options.well_formed(),
        forest_within(body@, code.len() as int),
    ensures
        edits_of(patches@) == collected_edits(code@, *options, body@),
{
    let mut patches: Vec<Patch> = Vec::new();
    assert(edits_of(patches@) =~= Seq::<Edit>::empty());
    visit_forest(code, options, body, &mut patches);
    scan_plain_text(code, options, &mut patches);
    assert(edits_of(patches@) =~= collected_edits(code@, *options, body@));
    patches
}

/// A member expression that a rule replaces is replaced as a whole, by that
/// one edit: whatever lies inside it, no identifier in it is renamed and no
/// other rule is matched there.
pub proof fn lemma_replaced_member_is_exclusive(
    code: Seq<u8>,
    options: TransformOptions,
    span: Span,
    children: Vec<SyntaxNode>,
    others: Vec<SyntaxNode>,
)
    requires
        member_replacement(code, options, span) is Some,
    ensures
        node_edits(code, options, SyntaxNode::StaticMemberExpression { span, children }) == seq![
            Edit {
                start: span.start as int,
                end: span.end as int,
                text: member_replacement(code, options, span)->0,
            },
        ],
        node_edits(code, options, SyntaxNode::StaticMemberExpression { span, children })
            == node_edits(code, options, SyntaxNode::StaticMemberExpression { span, children: others }),
{
}

/// Some identifier of the node, or of a node inside it, bears a name that is
/// a key of the renames.
pub open spec fn node_mentions_renamed(options: TransformOptions, node: SyntaxNode) -> bool
    decreases node, 0nat,
{
    match node {
        SyntaxNode::Identifier(identifier) => mapped(options.renames, identifier.name@) is Some,
        SyntaxNode::ImportDeclaration { children, .. } => forest_mentions_renamed(
            options,
            children@,
        ),
        SyntaxNode::JsxMemberExpression { children, .. } => forest_mentions_renamed(
            options,
            children@,
        ),
        SyntaxNode::StaticMemberExpression { children, .. } => forest_mentions_renamed(
            options,
            children@,
        ),
    }
}

/// Some identifier of the nodes bears a name that is a key of the renames.
pub open spec fn forest_mentions_renamed(options: TransformOptions, nodes: Seq<SyntaxNode>) -> bool
    decreases nodes, 1nat,
{
    nodes.len() > 0 && (forest_mentions_renamed(options, nodes.drop_last())
        || node_mentions_renamed(options, nodes.last()))
}

/// A rule set that holds renames and nothing else asks for no edit on a node
/// in which no identifier bears a name that is to be renamed.
pub proof fn lemma_settled_node(code: Seq<u8>, options: TransformOptions, node: SyntaxNode)
    requires
        options.imports is None,
        options.remove_jsx_member_suffix is None,
        options.replace_text is None,
        !node_mentions_renamed(options, node),
    ensures
        node_edits(code, options, node) == Seq::<Edit>::empty(),
    decreases node, 0nat,
{
    match node {
        SyntaxNode::Identifier(identifier) => {},
        SyntaxNode::ImportDeclaration { declaration, children } => {
            lemma_settled_forest(code, options, children@);
        },
        SyntaxNode::JsxMemberExpression { expression, children } => {
            assert(listed(options.remove_jsx_member_suffix) =~= Seq::<Seq<u8>>::empty());
            lemma_settled_forest(code, options, children@);
        },
        SyntaxNode::StaticMemberExpression { span, children } => {
            lemma_settled_forest(code, options, children@);
        },
    }
}

/// A rule set that holds renames and nothing else asks for no edit on nodes
/// in which no identifier bears a name that is to be renamed.
pub proof fn lemma_settled_forest(code: Seq<u8>, options: TransformOptions, nodes: Seq<SyntaxNode>)
    requires
        options.imports is None,
        options.remove_jsx_member_suffix is None,
        options.replace_text is None,
        !forest_mentions_renamed(options, nodes),
    ensures
        forest_edits(code, options, nodes) == Seq::<Edit>::empty(),
    decreases nodes, 1nat,
{
    if nodes.len() > 0 {
        lemma_settled_forest(code, options, nodes.drop_last());
        lemma_settled_node(code, options, nodes.last());
    }
}

/// The edits of a node whose spans lie inside the source lie inside the
/// source.
pub proof fn lemma_node_edits_fit(code: Seq<u8>, options: TransformOptions, node: SyntaxNode)
    requires
        node_within(node, code.len() as int),
    ensures
        all_fit(node_edits(code, options, node), code.len() as int),
    decreases node, 0nat,
{
    match node {
        SyntaxNode::Identifier(identifier) => {},
        SyntaxNode::ImportDeclaration { declaration, children } => {
            lemma_import_edits_fit(code, options, declaration);
            lemma_forest_edits_fit(code, options, children@);
            lemma_all_fit_concat(
                import_edits(code, options, declaration),
                forest_edits(code, options, children@),
                code.len() as int,
            );
        },
        SyntaxNode::JsxMemberExpression { expression, children } => {
            lemma_forest_edits_fit(code, options, children@);
            lemma_all_fit_concat(
                jsx_edits(options, expression),
                forest_edits(code, options, children@),
                code.len() as int,
            );
        },
        SyntaxNode::StaticMemberExpression { span, children } => {
            lemma_forest_edits_fit(code, options, children@);
        },
    }
}

/// The edits of nodes whose spans lie inside the source lie inside the
/// source.
pub proof fn lemma_forest_edits_fit(code: Seq<u8>, options: TransformOptions, nodes: Seq<SyntaxNode>)
    requires
        forest_within(nodes, code.len() as int),
    ensures
        all_fit(forest_edits(code, options, nodes), code.len() as int),
    decreases nodes, 1nat,
{
    if nodes.len() > 0 {
        lemma_forest_edits_fit(code, options, nodes.drop_last());
        lemma_node_edits_fit(code, options, nodes.last());
        lemma_all_fit_concat(
            forest_edits(code, options, nodes.drop_last()),
            node_edits(code, options, nodes.last()),
            code.len() as int,
        );
    }
}

/// Spans stay valid: where every span of the tree lies inside the source,
/// every collected edit has an ordered range that lies inside the source.
pub proof fn lemma_collected_edits_fit(code: Seq<u8>, options: TransformOptions, body: Seq<SyntaxNode>)
    requires
        forest_within(body, code.len() as int),
    ensures
        all_fit(collected_edits(code, options, body), code.len() as int),
{
    lemma_forest_edits_fit(code, options, body);
    lemma_plain_text_edits_fit(code, options);
    lemma_all_fit_concat(
        forest_edits(code, options, body),
        plain_text_edits(code, options),
        code.len() as int,
    );
}

/// The name that an identifier bears after the renames were applied to it.
pub open spec fn name_after(options: TransformOptions, name: Seq<u8>) -> Seq<u8> {
    match mapped(options.renames, name) {
        Some(renamed) => renamed,
        None => name,
    }
}

/// No rename leads to a name that is itself renamed: one run renames fully.
pub open spec fn renames_settle(options: TransformOptions) -> bool {
    forall|name: Seq<u8>|
        mapped(options.renames, name) is Some ==> mapped(
            options.renames,
            #[trigger] name_after(options, name),
        ) is None
}

/// `after` is the node `before` as a parser reads it once the renames were
/// applied: the same kind of node, each identifier under its new name.
pub open spec fn node_renamed_as(options: TransformOptions, before: SyntaxNode, after: SyntaxNode) -> bool
    decreases before, 0nat,
{
    match before {
        SyntaxNode::Identifier(was) => after matches SyntaxNode::Identifier(is) && is.name@
            == name_after(options, was.name@),
        SyntaxNode::ImportDeclaration { children: was, .. } => after matches SyntaxNode::ImportDeclaration {
            children: is,
            ..
        } && forest_renamed_as(options, was@, is@),
        SyntaxNode::JsxMemberExpression { children: was, .. } => after matches SyntaxNode::JsxMemberExpression {
            children: is,
            ..
        } && forest_renamed_as(options, was@, is@),
        SyntaxNode::StaticMemberExpression { children: was, .. } => after matches SyntaxNode::StaticMemberExpression {
            children: is,
            ..
        } && forest_renamed_as(options, was@, is@),
    }
}

/// `after` is the list of nodes `before` as a parser reads it once the
/// renames were applied.
pub open spec fn forest_renamed_as(
    options: TransformOptions,
    before: Seq<SyntaxNode>,
    after: Seq<SyntaxNode>,
) -> bool
    decreases before, 1nat,
{
    before.len() == after.len() && (before.len() == 0 || (forest_renamed_as(
        options,
        before.drop_last(),
        after.drop_last(),
    ) && node_renamed_as(options, before.last(), after.last())))
}

/// Once renames that settle were applied to a node, no identifier in it
/// bears a name that is to be renamed.
pub proof fn lemma_renamed_node_is_settled(
    options: TransformOptions,
    before: SyntaxNode,
    after: SyntaxNode,
)
    requires
        renames_settle(options),
        node_renamed_as(options, before, after),
    ensures
        !node_mentions_renamed(options, after),
    decreases before, 0nat,
{
    match before {
        SyntaxNode::Identifier(was) => {
            if mapped(options.renames, was.name@) is Some {
                assert(mapped(options.renames, name_after(options, was.name@)) is None);
            }
        },
        SyntaxNode::ImportDeclaration { children: was, .. } => {
            let is = after->ImportDeclaration_children;
            lemma_renamed_forest_is_settled(options, was@, is@);
        },
        SyntaxNode::JsxMemberExpression { children: was, .. } => {
            let is = after->JsxMemberExpression_children;
            lemma_renamed_forest_is_settled(options, was@, is@);
        },
        SyntaxNode::StaticMemberExpression { children: was, .. } => {
            let is = after->StaticMemberExpression_children;
            lemma_renamed_forest_is_settled(options, was@, is@);
        },
    }
}

/// Once renames that settle were applied to a list of nodes, no identifier
/// in it bears a name that is to be renamed.
pub proof fn lemma_renamed_forest_is_settled(
    options: TransformOptions,
    before: Seq<SyntaxNode>,
    after: Seq<SyntaxNode>,
)
    requires
        renames_settle(options),
        forest_renamed_as(options, before, after),
    ensures
        !forest_mentions_renamed(options, after),
    decreases before, 1nat,
{
    if before.len() > 0 {
        lemma_renamed_forest_is_settled(options, before.drop_last(), after.drop_last());
        lemma_renamed_node_is_settled(options, before.last(), after.last());
    }
}

} // verus!
