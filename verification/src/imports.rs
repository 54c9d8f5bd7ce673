//! Import declarations: the module string, renamed specifiers and removed
//! specifiers.

use crate::patch::{all_fit, edits_of, fits, lemma_all_fit_concat, push_patch, Edit, Patch};
use crate::rules::{
    is_listed, listed, mapped_edit, push_mapped, ImportTransforms, TransformOptions,
};
use crate::syntax::{ImportDeclaration, ImportSpecifier, Span};
use crate::text::{
    bytes_equal, lemma_skip_spaces_bounds, lemma_skip_whitespace_back_bounds,
    lemma_skip_whitespace_bounds, skip_spaces, skip_spaces_from, skip_whitespace,
    skip_whitespace_back, skip_whitespace_back_from, skip_whitespace_from, COMMA, LINE_FEED,
};
use vstd::prelude::*;

verus! {

/// A module string whose value is a key of `replace_source` has the text
/// between its quotes replaced.
pub open spec fn source_edits(rules: ImportTransforms, declaration: ImportDeclaration) -> Seq<
    Edit,
> {
    mapped_edit(
        rules.replace_source,
        declaration.source.value@,
        declaration.source.span.start + 1,
        declaration.source.span.end - 1,
    )
}

/// The specifier is named by `remove_specifier`: a named one by its imported
/// or its local name, the others by their local name.
pub open spec fn is_removed(rules: ImportTransforms, specifier: ImportSpecifier) -> bool {
    let names = listed(rules.remove_specifier);
    match specifier {
        ImportSpecifier::Named { imported, local, .. } => names.contains(imported@)
            || names.contains(local.name@),
        ImportSpecifier::Default { local, .. } => names.contains(local.name@),
        ImportSpecifier::Namespace { local, .. } => names.contains(local.name@),
    }
}

/// A specifier that stays and whose local name is a key of
/// `rename_specifier`: without an alias the whole specifier becomes the new
/// name, with an alias only the local part does.
pub open spec fn specifier_rename_edits(rules: ImportTransforms, specifier: ImportSpecifier) -> Seq<
    Edit,
> {
    if is_removed(rules, specifier) {
        Seq::empty()
    } else {
        match specifier {
            ImportSpecifier::Named { span, imported, local } => if imported@ == local.name@ {
                mapped_edit(rules.rename_specifier, local.name@, span.start as int, span.end as int)
            } else {
                mapped_edit(
                    rules.rename_specifier,
                    local.name@,
                    local.span.start as int,
                    local.span.end as int,
                )
            },
            ImportSpecifier::Default { local, .. } => mapped_edit(
                rules.rename_specifier,
                local.name@,
                local.span.start as int,
                local.span.end as int,
            ),
            ImportSpecifier::Namespace { local, .. } => mapped_edit(
                rules.rename_specifier,
                local.name@,
                local.span.start as int,
                local.span.end as int,
            ),
        }
    }
}

/// The rename edits of the specifiers, in source order.
pub open spec fn rename_edits(rules: ImportTransforms, specifiers: Seq<ImportSpecifier>) -> Seq<
    Edit,
>
    decreases specifiers.len(),
{
    if specifiers.len() == 0 {
        Seq::empty()
    } else {
        rename_edits(rules, specifiers.drop_last()) + specifier_rename_edits(
            rules,
            specifiers.last(),
        )
    }
}

/// How many of the specifiers are removed.
pub open spec fn removed_count(rules: ImportTransforms, specifiers: Seq<ImportSpecifier>) -> nat
    decreases specifiers.len(),
{
    if specifiers.len() == 0 {
        0
    } else if is_removed(rules, specifiers.last()) {
        removed_count(rules, specifiers.drop_last()) + 1
    } else {
        removed_count(rules, specifiers.drop_last())
    }
}

/// The deletion that takes one specifier out of a list that keeps others.
/// Where a comma follows the specifier, after any white space, the deletion
/// runs through that comma and the plain spaces behind it. Otherwise, where a
/// comma stands before the specifier, before any white space, the deletion
/// starts at that comma.
pub open spec fn removal_edit(code: Seq<u8>, span: Span) -> Edit {
    let after = skip_whitespace(code, span.end as int);
    if after < code.len() && code[after] == COMMA {
        Edit { start: span.start as int, end: skip_spaces(code, after + 1), text: Seq::empty() }
    } else {
        let before = skip_whitespace_back(code, span.start as int);
        if span.start > 0 && before > 0 && code[before - 1] == COMMA {
            Edit { start: before - 1, end: span.end as int, text: Seq::empty() }
        } else {
            Edit { start: span.start as int, end: span.end as int, text: Seq::empty() }
        }
    }
}

/// The deletions of the removed specifiers, last specifier first.
pub open spec fn removal_edits(
    code: Seq<u8>,
    rules: ImportTransforms,
    specifiers: Seq<ImportSpecifier>,
) -> Seq<Edit>
    decreases specifiers.len(),
{
    if specifiers.len() == 0 {
        Seq::empty()
    } else if is_removed(rules, specifiers.last()) {
        seq![removal_edit(code, specifiers.last().spec_span())] + removal_edits(
            code,
            rules,
            specifiers.drop_last(),
        )
    } else {
        removal_edits(code, rules, specifiers.drop_last())
    }
}

/// The deletion of a whole declaration, with the line feed that follows it.
pub open spec fn declaration_removal(code: Seq<u8>, declaration: ImportDeclaration) -> Edit {
    let end = declaration.span.end as int;
    Edit {
        start: declaration.span.start as int,
        end: if end < code.len() && code[end] == LINE_FEED {
            end + 1
        } else {
            end
        },
        text: Seq::empty(),
    }
}

/// What specifier removal does to a declaration: nothing where no specifier
/// is removed, the whole declaration where all are, and otherwise one
/// deletion for each removed specifier.
pub open spec fn removals(code: Seq<u8>, rules: ImportTransforms, declaration: ImportDeclaration) -> Seq<
    Edit,
> {
    let removed = removed_count(rules, declaration.specifiers@);
    if removed == 0 {
        Seq::empty()
    } else if removed == declaration.specifiers@.len() {
        seq![declaration_removal(code, declaration)]
    } else {
        removal_edits(code, rules, declaration.specifiers@)
    }
}

/// The edits of one import declaration: the module string, then the renamed
/// specifiers, then the removals.
pub open spec fn import_edits(
    code: Seq<u8>,
    options: TransformOptions,
    declaration: ImportDeclaration,
) -> Seq<Edit> {
    match options.imports {
        Some(rules) => source_edits(rules, declaration) + rename_edits(
            rules,
            declaration.specifiers@,
        ) + removals(code, rules, declaration),
        None => Seq::empty(),
    }
}

/// Whether `remove_specifier` names the specifier.
pub fn specifier_is_removed(rules: &ImportTransforms, specifier: &ImportSpecifier) -> (removed: bool)
    ensures
        removed == is_removed(*rules, *specifier),
{
    match specifier {
        ImportSpecifier::Named { imported, local, .. } => is_listed(
            &rules.remove_specifier,
            imported.as_slice(),
        ) || is_listed(&rules.remove_specifier, local.name.as_slice()),
        ImportSpecifier::Default { local, .. } => is_listed(
            &rules.remove_specifier,
            local.name.as_slice(),
        ),
        ImportSpecifier::Namespace { local, .. } => is_listed(
            &rules.remove_specifier,
            local.name.as_slice(),
        ),
    }
}

/// Handles one specifier: says whether it is removed, and renames it where
/// it stays and its local name is a key of `rename_specifier`.
pub fn visit_import_specifier(
    rules: &ImportTransforms,
    specifier: &ImportSpecifier,
    out: &mut Vec<Patch>,
) -> (removed: bool)
    ensures
        removed == is_removed(*rules, *specifier),
        edits_of(final(out)@) == edits_of(old(out)@) + specifier_rename_edits(*rules, *specifier),
{
    if specifier_is_removed(rules, specifier) {
        assert(edits_of(out@) =~= edits_of(old(out)@) + specifier_rename_edits(*rules, *specifier));
        return true;
    }
    match specifier {
        ImportSpecifier::Named { span, imported, local } => {
            if bytes_equal(imported.as_slice(), local.name.as_slice()) {
                push_mapped(
                    out,
                    &rules.rename_specifier,
                    local.name.as_slice(),
                    span.start,
                    span.end,
                );
            } else {
                push_mapped(
                    out,
                    &rules.rename_specifier,
                    local.name.as_slice(),
                    local.span.start,
                    local.span.end,
                );
            }
        },
        ImportSpecifier::Default { local, .. } => {
            push_mapped(
                out,
                &rules.rename_specifier,
                local.name.as_slice(),
                local.span.start,
                local.span.end,
            );
        },
        ImportSpecifier::Namespace { local, .. } => {
            push_mapped(
                out,
                &rules.rename_specifier,
                local.name.as_slice(),
                local.span.start,
                local.span.end,
            );
        },
    }
    false
}

/// The range to delete for one specifier of a list that keeps others.
pub fn removal_span(code: &[u8], span: Span) -> (range: Span)
    requires
        span.within(code.len() as int),
    ensures
        range.start == removal_edit(code@, span).start,
        range.end == removal_edit(code@, span).end,
        range.within(code.len() as int),
{
    let after = skip_whitespace_from(code, span.end);
    if after < code.len() && code[after] == COMMA {
        let end = skip_spaces_from(code, after + 1);
        return Span { start: span.start, end };
    }
    if span.start > 0 {
        let before = skip_whitespace_back_from(code, span.start);
        if before > 0 && code[before - 1] == COMMA {
            return Span { start: before - 1, end: span.end };
        }
    }
    span
}

/// Deletes each removed specifier of a list that keeps others, last
/// specifier first.
pub fn remove_specifiers(
    code: &[u8],
    rules: &ImportTransforms,
    specifiers: &Vec<ImportSpecifier>,
    out: &mut Vec<Patch>,
)
    requires
        forall|i: int| 0 <= i < specifiers@.len() ==> (#[trigger] specifiers@[i]).within(code.len() as int),
    ensures
        edits_of(final(out)@) == edits_of(old(out)@) + removal_edits(code@, *rules, specifiers@),
{
    let ghost base = edits_of(out@);
    let ghost all = removal_edits(code@, *rules, specifiers@);
    let mut i: usize = specifiers.len();
    assert(specifiers@.take(i as int) =~= specifiers@);
    assert(edits_of(out@) + all =~= base + all);
    while i > 0
        invariant
            i <= specifiers.len(),
            forall|k: int| 0 <= k < specifiers@.len() ==> (#[trigger] specifiers@[k]).within(code.len() as int),
            edits_of(out@) + removal_edits(code@, *rules, specifiers@.take(i as int)) == base + all,
        decreases i,
    {
        let ghost before = edits_of(out@);
        let ghost front = specifiers@.take(i as int);
        assert(front.drop_last() =~= specifiers@.take(i - 1));
        assert(front.last() == specifiers@[i - 1]);
        i = i - 1;
        assert(specifiers@[i as int].within(code.len() as int));
        if specifier_is_removed(rules, &specifiers[i]) {
            let range = removal_span(code, specifiers[i].span());
            let empty: Vec<u8> = Vec::new();
            push_patch(out, range.start, range.end, empty.as_slice());
            assert(edits_of(out@) + removal_edits(code@, *rules, specifiers@.take(i as int))
                =~= before + removal_edits(code@, *rules, front));
        }
    }
    assert(specifiers@.take(0) =~= Seq::<ImportSpecifier>::empty());
    assert(edits_of(out@) =~= base + all);
}

/// Rewrites one import declaration: its module string, its renamed
/// specifiers and its removed specifiers.
pub fn visit_import_declaration(
    code: &[u8],
    options: &TransformOptions,
    declaration: &ImportDeclaration,
    out: &mut Vec<Patch>,
)
    requires
        declaration.within(code.len() as int),
    ensures
        edits_of(final(out)@) == edits_of(old(out)@) + import_edits(code@, *options, *declaration),
{
    let ghost base = edits_of(out@);
    let rules = match &options.imports {
        Some(rules) => rules,
        None => {
            assert(edits_of(out@) =~= base + import_edits(code@, *options, *declaration));
            return ;
        },
    };
    push_mapped(
        out,
        &rules.replace_source,
        declaration.source.value.as_slice(),
        declaration.source.span.start + 1,
        declaration.source.span.end - 1,
    );
    let ghost renamed_base = edits_of(out@);
    let specifiers = &declaration.specifiers;
    let mut removed: usize = 0;
    let mut i: usize = 0;
    assert(specifiers@.take(0) =~= Seq::<ImportSpecifier>::empty());
    assert(edits_of(out@) =~= renamed_base + rename_edits(*rules, specifiers@.take(0)));
    while i < specifiers.len()
        invariant
            i <= specifiers.len(),
            removed <= i,
            removed == removed_count(*rules, specifiers@.take(i as int)),
            edits_of(out@) == renamed_base + rename_edits(*rules, specifiers@.take(i as int)),
        decreases specifiers.len() - i,
    {
        let ghost before = edits_of(out@);
        assert(specifiers@.take(i + 1).drop_last() =~= specifiers@.take(i as int));
        if visit_import_specifier(rules, &specifiers[i], out) {
            removed = removed + 1;
        }
        assert(edits_of(out@) =~= renamed_base + rename_edits(*rules, specifiers@.take(i + 1)));
        i = i + 1;
    }
    assert(specifiers@.take(i as int) =~= specifiers@);
    let ghost removal_base = edits_of(out@);
    if removed > 0 {
        if removed == specifiers.len() {
            let end = declaration.span.end;
            let through = if end < code.len() && code[end] == LINE_FEED {
                end + 1
            } else {
                end
            };
            let empty: Vec<u8> = Vec::new();
            push_patch(out, declaration.span.start, through, empty.as_slice());
            assert(edits_of(out@) =~= removal_base + removals(code@, *rules, *declaration));
        } else {
            remove_specifiers(code, rules, specifiers, out);
        }
    } else {
        assert(edits_of(out@) =~= removal_base + removals(code@, *rules, *declaration));
    }
    assert(edits_of(out@) =~= base + import_edits(code@, *options, *declaration));
}

/// The deletion of a specifier lies inside the source.
proof fn lemma_removal_edit_fits(code: Seq<u8>, span: Span)
    requires
        span.within(code.len() as int),
    ensures
        fits(removal_edit(code, span), code.len() as int),
{
    lemma_skip_whitespace_bounds(code, span.end as int);
    let after = skip_whitespace(code, span.end as int);
    if after < code.len() {
        lemma_skip_spaces_bounds(code, after + 1);
    }
    lemma_skip_whitespace_back_bounds(code, span.start as int);
}

/// The edits of the specifiers of a declaration lie inside the source.
proof fn lemma_specifier_edits_fit(
    code: Seq<u8>,
    rules: ImportTransforms,
    specifiers: Seq<ImportSpecifier>,
)
    requires
        forall|i: int| 0 <= i < specifiers.len() ==> (#[trigger] specifiers[i]).within(code.len() as int),
    ensures
        all_fit(rename_edits(rules, specifiers), code.len() as int),
        all_fit(removal_edits(code, rules, specifiers), code.len() as int),
    decreases specifiers.len(),
{
    if specifiers.len() > 0 {
        let last = specifiers.last();
        assert(last == specifiers[specifiers.len() - 1]);
        assert(last.within(code.len() as int));
        assert forall|i: int| 0 <= i < specifiers.drop_last().len() implies (
        #[trigger] specifiers.drop_last()[i]).within(code.len() as int) by {
            assert(specifiers.drop_last()[i] == specifiers[i]);
        }
        lemma_specifier_edits_fit(code, rules, specifiers.drop_last());
        lemma_all_fit_concat(
            rename_edits(rules, specifiers.drop_last()),
            specifier_rename_edits(rules, last),
            code.len() as int,
        );
        lemma_removal_edit_fits(code, last.spec_span());
        if is_removed(rules, last) {
            lemma_all_fit_concat(
                seq![removal_edit(code, last.spec_span())],
                removal_edits(code, rules, specifiers.drop_last()),
                code.len() as int,
            );
        }
    }
}

/// The edits of an import declaration lie inside the source.
pub proof fn lemma_import_edits_fit(
    code: Seq<u8>,
    options: TransformOptions,
    declaration: ImportDeclaration,
)
    requires
        declaration.within(code.len() as int),
    ensures
        all_fit(import_edits(code, options, declaration), code.len() as int),
{
    match options.imports {
        Some(rules) => {
            lemma_specifier_edits_fit(code, rules, declaration.specifiers@);
            lemma_all_fit_concat(
                source_edits(rules, declaration),
                rename_edits(rules, declaration.specifiers@),
                code.len() as int,
            );
            lemma_all_fit_concat(
                source_edits(rules, declaration) + rename_edits(rules, declaration.specifiers@),
                removals(code, rules, declaration),
                code.len() as int,
            );
        },
        None => {},
    }
}

} // verus!
