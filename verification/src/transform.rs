//! The whole run: from source text, parsed module and rule set to the result.

use crate::collect::{
    collect_patches, collected_edits, forest_mentions_renamed, forest_renamed_as,
    lemma_collected_edits_fit, lemma_renamed_forest_is_settled, lemma_settled_forest,
    node_mentions_renamed, renames_settle,
};
use crate::patch::{
    applicable, apply_in_order, apply_patches, can_apply, edits_of, inserted_total,
    lemma_applicable_applies, lemma_applied_length, lemma_non_overlapping_set, non_overlapping,
    rebuilt, removed_total, resolve_order, resolved, Edit, Patch,
};
use crate::prefix::{added_imports, build_prefix, lemma_prefix_empty, prefix_text};
use crate::rules::TransformOptions;
use crate::syntax::{forest_is_within, forest_within, ParsedModule, SyntaxNode};
use crate::text::{append_bytes, join_texts, joined, texts_of};
use vstd::prelude::*;
use vstd::string::StringSliceAdditionalSpecFns;

verus! {

/// How a run ended.
pub struct TransformResult {
    /// The source parsed.
    pub success: bool,
    /// An edit was collected or an import is added, so that an output is
    /// handed back; its text may still equal the source, as after a rename
    /// of a name to itself.
    pub modified: bool,
    /// The rewritten text, where `modified` is set.
    pub output: Option<Vec<u8>>,
    /// The parser's messages, where the source did not parse.
    pub error: Option<Vec<u8>>,
}

/// The mathematical content of a [`TransformResult`].
pub struct Outcome {
    pub success: bool,
    pub modified: bool,
    pub output: Option<Seq<u8>>,
    pub error: Option<Seq<u8>>,
}

impl View for TransformResult {
    type V = Outcome;

    open spec fn view(&self) -> Outcome {
        Outcome {
            success: self.success,
            modified: self.modified,
            output: match self.output {
                Some(text) => Some(text@),
                None => None,
            },
            error: match self.error {
                Some(text) => Some(text@),
                None => None,
            },
        }
    }
}

impl Outcome {
    /// An error is set only on failure, an output only where something
    /// changed, and a failure changes nothing.
    pub open spec fn well_formed(&self) -> bool {
        &&& self.error is Some ==> !self.success
        &&& self.output is Some ==> self.modified
        &&& !self.success ==> !self.modified && self.output is None
    }
}

/// The result for a source that did not parse: its error is the parser's
/// messages in order, joined by `; `.
pub open spec fn parse_failure(errors: Seq<Seq<u8>>) -> Outcome {
    Outcome {
        success: false,
        modified: false,
        output: None,
        error: Some(joined(errors, "; ".spec_bytes())),
    }
}

/// The result for a source that no rule changes.
pub open spec fn unchanged() -> Outcome {
    Outcome { success: true, modified: false, output: None, error: None }
}

/// The result for a source that was rewritten to `text`.
pub open spec fn rewritten(text: Seq<u8>) -> Outcome {
    Outcome { success: true, modified: true, output: Some(text), error: None }
}

/// The result of a run. A source with parse errors fails. Otherwise the
/// source is unchanged where no edit was collected and nothing is put in
/// front; else the output is the prefix followed by the source with the
/// resolved edits applied.
pub open spec fn transformed(code: Seq<u8>, parsed: ParsedModule, options: TransformOptions) -> Outcome {
    if parsed.errors@.len() > 0 {
        parse_failure(texts_of(parsed.errors@))
    } else {
        let edits = collected_edits(code, options, parsed.body@);
        let prefix = prefix_text(options);
        if edits.len() == 0 && prefix.len() == 0 {
            unchanged()
        } else {
            rewritten(prefix + apply_in_order(code, resolved(edits)))
        }
    }
}

/// The run is defined: where the source parsed, the rule set is well formed,
/// every span of the tree lies inside the source, and the resolved edits can
/// be applied one after another.
pub open spec fn transformable(code: Seq<u8>, parsed: ParsedModule, options: TransformOptions) -> bool {
    parsed.errors@.len() == 0 ==> {
        &&& options.well_formed()
        &&& forest_within(parsed.body@, code.len() as int)
        &&& applicable(
            code.len() as int,
            resolved(collected_edits(code, options, parsed.body@)),
        )
    }
}

/// The result for a source that did not parse.
fn failed(errors: &Vec<Vec<u8>>) -> (result: TransformResult)
    ensures
        result@ == parse_failure(texts_of(errors@)),
{
    let message = join_texts(errors, "; ".as_bytes());
    TransformResult { success: false, modified: false, output: None, error: Some(message) }
}

/// The result for a source to which `ordered` is applied and `prefix` put in
/// front.
fn compose(code: &[u8], ordered: &Vec<Patch>, prefix: Vec<u8>) -> (result: TransformResult)
    requires
        applicable(code.len() as int, edits_of(ordered@)),
    ensures
        result@ == rewritten(prefix@ + apply_in_order(code@, edits_of(ordered@))),
{
    let body = apply_patches(code, ordered);
    let mut output = prefix;
    append_bytes(&mut output, body.as_slice());
    TransformResult { success: true, modified: true, output: Some(output), error: None }
}

/// Rewrites `code`, whose parse is `parsed`, by the rule set `options`.
pub fn transform_code(code: &[u8], parsed: &ParsedModule, options: &TransformOptions) -> (result:
    TransformResult)
    requires
        transformable(code@, *parsed, *options),
    ensures
        result@ == transformed(code@, *parsed, *options),
        result@.well_formed(),
{
    if parsed.errors.len() > 0 {
        return failed(&parsed.errors);
    }
    let patches = collect_patches(code, options, &parsed.body);
    let prefix = build_prefix(options);
    if patches.len() == 0 && prefix.len() == 0 {
        return TransformResult { success: true, modified: false, output: None, error: None };
    }
    let ordered = resolve_order(&patches);
    compose(code, &ordered, prefix)
}

/// Rewrites `code` where the run is defined, and says where it is not.
pub fn try_transform_code(code: &[u8], parsed: &ParsedModule, options: &TransformOptions) -> (result:
    Option<TransformResult>)
    ensures
        match result {
            Some(r) => transformable(code@, *parsed, *options) && r@ == transformed(
                code@,
                *parsed,
                *options,
            ) && r@.well_formed(),
            None => !transformable(code@, *parsed, *options),
        },
{
    if parsed.errors.len() > 0 {
        return Some(failed(&parsed.errors));
    }
    if !options.is_well_formed() || !forest_is_within(&parsed.body, code.len()) {
        return None;
    }
    let patches = collect_patches(code, options, &parsed.body);
    let prefix = build_prefix(options);
    let ordered = resolve_order(&patches);
    if !can_apply(code.len(), &ordered) {
        return None;
    }
    if patches.len() == 0 && prefix.len() == 0 {
        return Some(TransformResult { success: true, modified: false, output: None, error: None });
    }
    Some(compose(code, &ordered, prefix))
}

/// Where no rule matched anything in the source and no import is added, the
/// run reports no change and hands back no output.
pub proof fn lemma_no_match_changes_nothing(
    code: Seq<u8>,
    parsed: ParsedModule,
    options: TransformOptions,
)
    requires
        collected_edits(code, options, parsed.body@).len() == 0,
        added_imports(options).len() == 0,
    ensures
        !transformed(code, parsed, options).modified,
        transformed(code, parsed, options).output is None,
        parsed.errors@.len() == 0 ==> transformed(code, parsed, options) == unchanged(),
{
    lemma_prefix_empty(options);
}

/// The empty rule set changes no source that parsed, and is always defined
/// on a tree whose spans lie inside the source.
pub proof fn lemma_empty_rule_set_changes_nothing(
    code: Seq<u8>,
    parsed: ParsedModule,
    options: TransformOptions,
)
    requires
        options.is_empty(),
        parsed.errors@.len() == 0,
    ensures
        transformed(code, parsed, options) == unchanged(),
        forest_within(parsed.body@, code.len() as int) ==> transformable(code, parsed, options),
{
    lemma_renames_absent(options, parsed.body@);
    lemma_settled_forest(code, options, parsed.body@);
    lemma_prefix_empty(options);
    assert(resolved(Seq::<Edit>::empty()) =~= Seq::<Edit>::empty());
}

/// Without renames no identifier bears a name that is to be renamed.
proof fn lemma_renames_absent(options: TransformOptions, nodes: Seq<SyntaxNode>)
    requires
        options.renames is None,
    ensures
        !forest_mentions_renamed(options, nodes),
    decreases nodes, 1nat,
{
    if nodes.len() > 0 {
        lemma_renames_absent(options, nodes.drop_last());
        lemma_renames_absent_node(options, nodes.last());
    }
}

proof fn lemma_renames_absent_node(options: TransformOptions, node: SyntaxNode)
    requires
        options.renames is None,
    ensures
        !node_mentions_renamed(options, node),
    decreases node, 0nat,
{
    match node {
        SyntaxNode::Identifier(identifier) => {},
        SyntaxNode::ImportDeclaration { declaration, children } => {
            lemma_renames_absent(options, children@);
        },
        SyntaxNode::JsxMemberExpression { expression, children } => {
            lemma_renames_absent(options, children@);
        },
        SyntaxNode::StaticMemberExpression { span, children } => {
            lemma_renames_absent(options, children@);
        },
    }
}

/// Renaming settles: a rule set that holds renames and nothing else changes
/// nothing in a source that parsed and in which no identifier bears a name
/// that is to be renamed.
pub proof fn lemma_renames_settle(code: Seq<u8>, parsed: ParsedModule, options: TransformOptions)
    requires
        options.imports is None,
        options.remove_jsx_member_suffix is None,
        options.replace_text is None,
        parsed.errors@.len() == 0,
        !forest_mentions_renamed(options, parsed.body@),
    ensures
        transformed(code, parsed, options) == unchanged(),
{
    lemma_settled_forest(code, options, parsed.body@);
    lemma_prefix_empty(options);
}

/// The length of a rewritten output: that of the prefix and of the source,
/// less the bytes that the applied edits take out, plus the bytes that they
/// put in.
pub proof fn lemma_rewritten_length(code: Seq<u8>, parsed: ParsedModule, options: TransformOptions)
    requires
        transformable(code, parsed, options),
        transformed(code, parsed, options).modified,
    ensures
        transformed(code, parsed, options).output is Some,
        transformed(code, parsed, options).output->0.len() == prefix_text(options).len()
            + code.len() - removed_total(resolved(collected_edits(code, options, parsed.body@)))
            + inserted_total(resolved(collected_edits(code, options, parsed.body@))),
{
    let applied = resolved(collected_edits(code, options, parsed.body@));
    lemma_applicable_applies(code.len() as int, applied);
    lemma_applied_length(code, applied);
}

/// Where the source parsed, every span of the tree lies inside it and no two
/// collected edits overlap, a rewritten output is the prefix followed by the
/// source with every resolved edit made at once, and its length follows from
/// the lengths of the replaced ranges and of the replacements.
pub proof fn lemma_non_overlapping_run(code: Seq<u8>, parsed: ParsedModule, options: TransformOptions)
    requires
        parsed.errors@.len() == 0,
        forest_within(parsed.body@, code.len() as int),
        non_overlapping(collected_edits(code, options, parsed.body@)),
        transformed(code, parsed, options).modified,
    ensures
        transformed(code, parsed, options).output == Some(
            prefix_text(options) + rebuilt(
                code,
                resolved(collected_edits(code, options, parsed.body@)),
                0,
            ),
        ),
        transformed(code, parsed, options).output->0.len() == prefix_text(options).len()
            + code.len() - removed_total(resolved(collected_edits(code, options, parsed.body@)))
            + inserted_total(resolved(collected_edits(code, options, parsed.body@))),
{
    lemma_collected_edits_fit(code, options, parsed.body@);
    lemma_non_overlapping_set(code, collected_edits(code, options, parsed.body@));
}

/// Round trip: after a run of a rule set that holds renames and nothing
/// else, and whose renames settle, a second run of the same rule set changes
/// nothing. `second` is the parse of the first run's output: the tree of the
/// first run with each identifier under its new name.
pub proof fn lemma_second_run_changes_nothing(
    first: ParsedModule,
    output: Seq<u8>,
    second: ParsedModule,
    options: TransformOptions,
)
    requires
        options.imports is None,
        options.remove_jsx_member_suffix is None,
        options.replace_text is None,
        renames_settle(options),
        second.errors@.len() == 0,
        forest_renamed_as(options, first.body@, second.body@),
    ensures
        transformed(output, second, options) == unchanged(),
        !transformed(output, second, options).modified,
{
    lemma_renamed_forest_is_settled(options, first.body@, second.body@);
    lemma_renames_settle(output, second, options);
}

} // verus!
