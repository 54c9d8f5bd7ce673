//! The scan of the raw text for the plain-text rules.

use crate::patch::{all_fit, edits_of, lemma_all_fit_concat, push_patch, Edit, Patch};
use crate::rules::{ReplaceTextRule, TransformOptions};
use crate::text::{matches_at, occurs_at};
use vstd::prelude::*;

verus! {

/// One edit for each occurrence of `pattern` at or after `from`, taken from
/// left to right; the search goes on behind each occurrence, so occurrences
/// never overlap.
pub open spec fn occurrence_edits(code: Seq<u8>, pattern: Seq<u8>, replacement: Seq<u8>, from: int) -> Seq<
    Edit,
>
    decreases code.len() - from,
{
    if pattern.len() == 0 || from < 0 || from + pattern.len() > code.len() {
        Seq::empty()
    } else if occurs_at(code, pattern, from) {
        seq![Edit { start: from, end: from + pattern.len(), text: replacement }] + occurrence_edits(
            code,
            pattern,
            replacement,
            from + pattern.len(),
        )
    } else {
        occurrence_edits(code, pattern, replacement, from + 1)
    }
}

/// The edits of one rule in the scan of the raw text.
pub open spec fn rule_scan_edits(code: Seq<u8>, rule: ReplaceTextRule) -> Seq<Edit> {
    if rule.plain_text() {
        occurrence_edits(code, rule.match_text@, rule.replace@, 0)
    } else {
        Seq::empty()
    }
}

/// The edits of the rules in the scan of the raw text, in rule order.
pub open spec fn scan_edits(code: Seq<u8>, rules: Seq<ReplaceTextRule>) -> Seq<Edit>
    decreases rules.len(),
{
    if rules.len() == 0 {
        Seq::empty()
    } else {
        scan_edits(code, rules.drop_last()) + rule_scan_edits(code, rules.last())
    }
}

/// The edits of the plain-text rules.
pub open spec fn plain_text_edits(code: Seq<u8>, options: TransformOptions) -> Seq<Edit> {
    match options.replace_text {
        Some(rules) => scan_edits(code, rules@),
        None => Seq::empty(),
    }
}

/// Scans the raw text for one plain-text rule.
pub fn scan_rule(code: &[u8], rule: &ReplaceTextRule, out: &mut Vec<Patch>)
    requires
        rule.plain_text() ==> rule.match_text@.len() > 0,
    ensures
        edits_of(final(out)@) == edits_of(old(out)@) + rule_scan_edits(code@, *rule),
{
    let ghost base = edits_of(out@);
    if !rule.is_plain_text() {
        assert(edits_of(out@) =~= base + rule_scan_edits(code@, *rule));
        return ;
    }
    let pattern = rule.match_text.as_slice();
    let ghost all = occurrence_edits(code@, pattern@, rule.replace@, 0);
    let mut at: usize = 0;
    assert(edits_of(out@) + all =~= base + all);
    while pattern.len() <= code.len() && at <= code.len() - pattern.len()
        invariant
            pattern@ == rule.match_text@,
            pattern@.len() > 0,
            at <= code.len(),
            edits_of(out@) + occurrence_edits(code@, pattern@, rule.replace@, at as int) == base
                + all,
        decreases code.len() - at,
    {
        let ghost before = edits_of(out@);
        if matches_at(code, pattern, at) {
            push_patch(out, at, at + pattern.len(), rule.replace.as_slice());
            assert(edits_of(out@) + occurrence_edits(
                code@,
                pattern@,
                rule.replace@,
                at + pattern@.len(),
            ) =~= before + occurrence_edits(code@, pattern@, rule.replace@, at as int));
            at = at + pattern.len();
        } else {
            at = at + 1;
        }
    }
    assert(edits_of(out@) =~= base + all);
}

/// Scans the raw text for every plain-text rule, in rule order.
pub fn scan_plain_text(code: &[u8], options: &TransformOptions, out: &mut Vec<Patch>)
    requires
        options.well_formed(),
    ensures
        edits_of(final(out)@) == edits_of(old(out)@) + plain_text_edits(code@, *options),
{
    let ghost base = edits_of(out@);
    let rules = match &options.replace_text {
        Some(rules) => rules,
        None => {
            assert(edits_of(out@) =~= base + plain_text_edits(code@, *options));
            return ;
        },
    };
    let mut i: usize = 0;
    assert(rules@.take(0) =~= Seq::<ReplaceTextRule>::empty());
    assert(edits_of(out@) =~= base + scan_edits(code@, rules@.take(0)));
    while i < rules.len()
        invariant
            i <= rules.len(),
            options.well_formed(),
            options.replace_text == Some(*rules),
            edits_of(out@) == base + scan_edits(code@, rules@.take(i as int)),
        decreases rules.len() - i,
    {
        assert(rules@.take(i + 1).drop_last() =~= rules@.take(i as int));
        scan_rule(code, &rules[i], out);
        assert(edits_of(out@) =~= base + scan_edits(code@, rules@.take(i + 1)));
        i = i + 1;
    }
    assert(rules@.take(i as int) =~= rules@);
}

/// The edits of a scan lie inside the source.
proof fn lemma_occurrence_edits_fit(code: Seq<u8>, pattern: Seq<u8>, replacement: Seq<u8>, from: int)
    ensures
        all_fit(occurrence_edits(code, pattern, replacement, from), code.len() as int),
    decreases code.len() - from,
{
    if pattern.len() == 0 || from < 0 || from + pattern.len() > code.len() {
    } else if occurs_at(code, pattern, from) {
        lemma_occurrence_edits_fit(code, pattern, replacement, from + pattern.len());
        lemma_all_fit_concat(
            seq![Edit { start: from, end: from + pattern.len(), text: replacement }],
            occurrence_edits(code, pattern, replacement, from + pattern.len()),
            code.len() as int,
        );
    } else {
        lemma_occurrence_edits_fit(code, pattern, replacement, from + 1);
    }
}

/// The edits of a list of rules in the scan lie inside the source.
proof fn lemma_scan_edits_fit(code: Seq<u8>, rules: Seq<ReplaceTextRule>)
    ensures
        all_fit(scan_edits(code, rules), code.len() as int),
    decreases rules.len(),
{
    if rules.len() > 0 {
        lemma_scan_edits_fit(code, rules.drop_last());
        lemma_occurrence_edits_fit(code, rules.last().match_text@, rules.last().replace@, 0);
        lemma_all_fit_concat(
            scan_edits(code, rules.drop_last()),
            rule_scan_edits(code, rules.last()),
            code.len() as int,
        );
    }
}

/// The edits of the plain-text rules lie inside the source.
pub proof fn lemma_plain_text_edits_fit(code: Seq<u8>, options: TransformOptions)
    ensures
        all_fit(plain_text_edits(code, options), code.len() as int),
{
    match options.replace_text {
        Some(rules) => {
            lemma_scan_edits_fit(code, rules@);
        },
        None => {},
    }
}

} // verus!
