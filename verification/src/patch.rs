//! Patches: byte-range replacements, their ordering and their application.

use vstd::prelude::*;
use vstd::slice::slice_to_vec;
use vstd::utf8::{
    is_char_boundary, is_char_boundary_iff_not_is_continuation_byte,
    is_char_boundary_start_end_of_seq, valid_utf8, valid_utf8_concat, valid_utf8_split,
};

verus! {

/// Replace the bytes in `[start, end)` by `replacement`. An empty replacement
/// deletes the range; `start == end` inserts.
pub struct Patch {
    pub start: usize,
    pub end: usize,
    pub replacement: Vec<u8>,
}

/// The mathematical content of a [`Patch`].
pub struct Edit {
    pub start: int,
    pub end: int,
    pub text: Seq<u8>,
}

impl View for Patch {
    type V = Edit;

    open spec fn view(&self) -> Edit {
        Edit { start: self.start as int, end: self.end as int, text: self.replacement@ }
    }
}

/// The edits that a list of patches stands for.
pub open spec fn edits_of(patches: Seq<Patch>) -> Seq<Edit> {
    patches.map_values(|p: Patch| p@)
}

/// The edit's range lies inside a text of `len` bytes.
pub open spec fn fits(e: Edit, len: int) -> bool {
    0 <= e.start <= e.end <= len
}

/// `text` with the range of `e` replaced by its text.
pub open spec fn splice(text: Seq<u8>, e: Edit) -> Seq<u8> {
    text.subrange(0, e.start) + e.text + text.subrange(e.end, text.len() as int)
}

/// Length of a text of `len` bytes after `e` was applied to it.
pub open spec fn spliced_len(len: int, e: Edit) -> int {
    len - (e.end - e.start) + e.text.len()
}

/// Each edit, applied in list order, fits the text that the edits before it
/// left, and no intermediate text outgrows the address space.
pub open spec fn applicable(len: int, edits: Seq<Edit>) -> bool
    decreases edits.len(),
{
    edits.len() == 0 || {
        &&& fits(edits[0], len)
        &&& spliced_len(len, edits[0]) <= usize::MAX
        &&& applicable(spliced_len(len, edits[0]), edits.drop_first())
    }
}

/// The text after the edits were applied one after another, in list order,
/// each to the result of the one before.
pub open spec fn apply_in_order(text: Seq<u8>, edits: Seq<Edit>) -> Seq<u8>
    decreases edits.len(),
{
    if edits.len() == 0 {
        text
    } else {
        apply_in_order(splice(text, edits[0]), edits.drop_first())
    }
}

/// `sorted` with `e` put behind the last edit that starts at or after
/// `e.start`.
pub open spec fn insert_by_start(sorted: Seq<Edit>, e: Edit) -> Seq<Edit>
    decreases sorted.len(),
{
    if sorted.len() == 0 || sorted.last().start >= e.start {
        sorted.push(e)
    } else {
        insert_by_start(sorted.drop_last(), e).push(sorted.last())
    }
}

/// The edits ordered by start offset, highest first. Edits with equal starts
/// keep the order in which they were collected.
pub open spec fn highest_first(edits: Seq<Edit>) -> Seq<Edit>
    decreases edits.len(),
{
    if edits.len() == 0 {
        edits
    } else {
        insert_by_start(highest_first(edits.drop_last()), edits.last())
    }
}

/// Two edits replace the same range.
pub open spec fn same_range(a: Edit, b: Edit) -> bool {
    a.start == b.start && a.end == b.end
}

/// The edits without those that replace the same range as the edit just
/// before them: of each run of equal ranges the first is kept.
pub open spec fn without_repeats(edits: Seq<Edit>) -> Seq<Edit>
    decreases edits.len(),
{
    if edits.len() <= 1 {
        edits
    } else if same_range(edits[edits.len() - 2], edits.last()) {
        without_repeats(edits.drop_last())
    } else {
        without_repeats(edits.drop_last()).push(edits.last())
    }
}

/// The order in which collected edits are applied: the highest start first,
/// equal starts in collection order, and of neighbours that replace the same
/// range only the first, which is the one that was collected first.
pub open spec fn resolved(edits: Seq<Edit>) -> Seq<Edit> {
    without_repeats(highest_first(edits))
}

/// A copy of `patch`.
pub fn copy_patch(patch: &Patch) -> (copy: Patch)
    ensures
        copy@ == patch@,
{
    Patch {
        start: patch.start,
        end: patch.end,
        replacement: slice_to_vec(patch.replacement.as_slice()),
    }
}

/// Adds the patch that replaces `[start, end)` by `replacement`.
pub fn push_patch(out: &mut Vec<Patch>, start: usize, end: usize, replacement: &[u8])
    ensures
        edits_of(final(out)@) == edits_of(old(out)@).push(
            Edit { start: start as int, end: end as int, text: replacement@ },
        ),
{
    out.push(Patch { start, end, replacement: slice_to_vec(replacement) });
    assert(edits_of(out@) =~= edits_of(old(out)@).push(
        Edit { start: start as int, end: end as int, text: replacement@ },
    ));
}

/// Orders patches by start offset, highest first, keeping the collection
/// order among patches with equal starts.
pub fn sort_patches(patches: &Vec<Patch>) -> (sorted: Vec<Patch>)
    ensures
        edits_of(sorted@) == highest_first(edits_of(patches@)),
{
    let mut sorted: Vec<Patch> = Vec::new();
    let mut i: usize = 0;
    assert(edits_of(patches@).take(0) =~= Seq::<Edit>::empty());
    assert(edits_of(sorted@) =~= Seq::<Edit>::empty());
    while i < patches.len()
        invariant
            i <= patches.len(),
            edits_of(sorted@) == highest_first(edits_of(patches@).take(i as int)),
        decreases patches.len() - i,
    {
        let patch = copy_patch(&patches[i]);
        let ghost before = edits_of(sorted@);
        let mut k: usize = sorted.len();
        assert(before.take(k as int) =~= before);
        assert(before.skip(k as int) =~= Seq::<Edit>::empty());
        while k > 0 && sorted[k - 1].start < patch.start
            invariant
                k <= sorted.len(),
                before == edits_of(sorted@),
                insert_by_start(before, patch@) == insert_by_start(before.take(k as int), patch@)
                    + before.skip(k as int),
            decreases k,
        {
            assert(before.take(k as int).drop_last() =~= before.take(k - 1));
            assert(insert_by_start(before.take(k - 1), patch@).push(before[k - 1]) + before.skip(
                k as int,
            ) =~= insert_by_start(before.take(k - 1), patch@) + before.skip(k - 1));
            k = k - 1;
        }
        assert(before.take(k as int).push(patch@) + before.skip(k as int) =~= before.insert(
            k as int,
            patch@,
        ));
        sorted.insert(k, patch);
        assert(edits_of(sorted@) =~= before.insert(k as int, patch@));
        assert(edits_of(patches@).take(i + 1).drop_last() =~= edits_of(patches@).take(i as int));
        i = i + 1;
    }
    assert(edits_of(patches@).take(i as int) =~= edits_of(patches@));
    sorted
}

/// Drops each patch that replaces the same range as the patch just before
/// it.
pub fn dedup_patches(patches: &Vec<Patch>) -> (kept: Vec<Patch>)
    ensures
        edits_of(kept@) == without_repeats(edits_of(patches@)),
{
    let mut kept: Vec<Patch> = Vec::new();
    let mut i: usize = 0;
    assert(edits_of(patches@).take(0) =~= Seq::<Edit>::empty());
    assert(edits_of(kept@) =~= Seq::<Edit>::empty());
    while i < patches.len()
        invariant
            i <= patches.len(),
            edits_of(kept@) == without_repeats(edits_of(patches@).take(i as int)),
        decreases patches.len() - i,
    {
        let ghost prefix = edits_of(patches@).take(i + 1);
        assert(prefix.drop_last() =~= edits_of(patches@).take(i as int));
        if i == 0 || patches[i - 1].start != patches[i].start || patches[i - 1].end
            != patches[i].end {
            let patch = copy_patch(&patches[i]);
            let ghost before = edits_of(kept@);
            kept.push(patch);
            assert(edits_of(kept@) =~= before.push(patch@));
            assert(i == 0 ==> prefix =~= Seq::<Edit>::empty().push(patch@));
        }
        i = i + 1;
    }
    assert(edits_of(patches@).take(i as int) =~= edits_of(patches@));
    kept
}

/// The order in which collected patches are applied: highest start first,
/// repeats of a range dropped.
pub fn resolve_order(patches: &Vec<Patch>) -> (ordered: Vec<Patch>)
    ensures
        edits_of(ordered@) == resolved(edits_of(patches@)),
{
    let sorted = sort_patches(patches);
    dedup_patches(&sorted)
}

/// Whether the patches can be applied to a text of `len` bytes one after
/// another, in list order.
pub fn can_apply(len: usize, patches: &Vec<Patch>) -> (ok: bool)
    ensures
        ok == applicable(len as int, edits_of(patches@)),
{
    let ghost all = edits_of(patches@);
    let mut current: usize = len;
    let mut i: usize = 0;
    assert(all.skip(0) =~= all);
    while i < patches.len()
        invariant
            i <= patches.len(),
            all == edits_of(patches@),
            applicable(len as int, all) == applicable(current as int, all.skip(i as int)),
        decreases patches.len() - i,
    {
        let patch = &patches[i];
        assert(all.skip(i as int)[0] == patch@);
        assert(all.skip(i as int).drop_first() =~= all.skip(i + 1));
        if patch.start > patch.end || patch.end > current {
            return false;
        }
        let kept: usize = current - (patch.end - patch.start);
        if patch.replacement.len() > usize::MAX - kept {
            return false;
        }
        current = kept + patch.replacement.len();
        i = i + 1;
    }
    true
}

/// `text` with the bytes in `[start, end)` replaced by `replacement`.
pub fn replace_range(text: &[u8], start: usize, end: usize, replacement: &[u8]) -> (out: Vec<u8>)
    requires
        start <= end <= text.len(),
    ensures
        out@ == splice(text@, Edit { start: start as int, end: end as int, text: replacement@ }),
{
    let mut out: Vec<u8> = Vec::new();
    let mut i: usize = 0;
    while i < start
        invariant
            i <= start <= text.len(),
            out@ == text@.subrange(0, i as int),
        decreases start - i,
    {
        out.push(text[i]);
        assert(text@.subrange(0, i + 1) =~= text@.subrange(0, i as int).push(text@[i as int]));
        i = i + 1;
    }
    let mut j: usize = 0;
    while j < replacement.len()
        invariant
            j <= replacement.len(),
            out@ == text@.subrange(0, start as int) + replacement@.take(j as int),
        decreases replacement.len() - j,
    {
        out.push(replacement[j]);
        assert(replacement@.take(j + 1) =~= replacement@.take(j as int).push(replacement@[j as int]));
        j = j + 1;
    }
    assert(replacement@.take(j as int) =~= replacement@);
    let mut k: usize = end;
    while k < text.len()
        invariant
            end <= k <= text.len(),
            out@ == text@.subrange(0, start as int) + replacement@ + text@.subrange(
                end as int,
                k as int,
            ),
        decreases text.len() - k,
    {
        out.push(text[k]);
        assert(text@.subrange(end as int, k + 1) =~= text@.subrange(end as int, k as int).push(
            text@[k as int],
        ));
        k = k + 1;
    }
    out
}

/// Applies the patches one after another, in list order.
pub fn apply_patches(text: &[u8], patches: &Vec<Patch>) -> (out: Vec<u8>)
    requires
        applicable(text.len() as int, edits_of(patches@)),
    ensures
        out@ == apply_in_order(text@, edits_of(patches@)),
{
    let ghost all = edits_of(patches@);
    let mut out: Vec<u8> = slice_to_vec(text);
    let mut i: usize = 0;
    assert(all.skip(0) =~= all);
    while i < patches.len()
        invariant
            i <= patches.len(),
            all == edits_of(patches@),
            applicable(out.len() as int, all.skip(i as int)),
            apply_in_order(text@, all) == apply_in_order(out@, all.skip(i as int)),
        decreases patches.len() - i,
    {
        let patch = &patches[i];
        assert(all.skip(i as int)[0] == patch@);
        assert(all.skip(i as int).drop_first() =~= all.skip(i + 1));
        out = replace_range(out.as_slice(), patch.start, patch.end, patch.replacement.as_slice());
        i = i + 1;
    }
    out
}

/// Every edit's range lies inside a text of `len` bytes.
pub open spec fn all_fit(edits: Seq<Edit>, len: int) -> bool {
    forall|i: int| 0 <= i < edits.len() ==> fits(#[trigger] edits[i], len)
}

/// Every edit fits a text of `len` bytes, and each edit ends at or before the
/// start of every edit that is listed before it: the edits do not overlap
/// and are listed from the highest offset to the lowest.
pub open spec fn separated(edits: Seq<Edit>, len: int) -> bool {
    &&& all_fit(edits, len)
    &&& forall|i: int, j: int|
        0 <= i < j < edits.len() ==> (#[trigger] edits[j]).end <= (#[trigger] edits[i]).start
}

/// Each edit, applied in list order, fits the text that the edits before it
/// left.
pub open spec fn applies(len: int, edits: Seq<Edit>) -> bool
    decreases edits.len(),
{
    edits.len() == 0 || (fits(edits[0], len) && applies(
        spliced_len(len, edits[0]),
        edits.drop_first(),
    ))
}

/// The number of bytes that the edits take out.
pub open spec fn removed_total(edits: Seq<Edit>) -> int
    decreases edits.len(),
{
    if edits.len() == 0 {
        0
    } else {
        (edits[0].end - edits[0].start) + removed_total(edits.drop_first())
    }
}

/// The number of bytes that the edits put in.
pub open spec fn inserted_total(edits: Seq<Edit>) -> int
    decreases edits.len(),
{
    if edits.len() == 0 {
        0
    } else {
        edits[0].text.len() + inserted_total(edits.drop_first())
    }
}

/// The text from offset `from` on with every edit made at once against the
/// unedited text: the stretches that no edit touches, in order, with each
/// replacement between them. The edits are listed from the highest offset to
/// the lowest.
pub open spec fn rebuilt(text: Seq<u8>, edits: Seq<Edit>, from: int) -> Seq<u8>
    decreases edits.len(),
{
    if edits.len() == 0 {
        text.subrange(from, text.len() as int)
    } else {
        text.subrange(from, edits.last().start) + edits.last().text + rebuilt(
            text,
            edits.drop_last(),
            edits.last().end,
        )
    }
}

/// Edits that can be applied within the machine's limits can be applied.
pub proof fn lemma_applicable_applies(len: int, edits: Seq<Edit>)
    requires
        applicable(len, edits),
    ensures
        applies(len, edits),
    decreases edits.len(),
{
    if edits.len() > 0 {
        lemma_applicable_applies(spliced_len(len, edits[0]), edits.drop_first());
    }
}

/// Once the first of a list of separated edits was applied, the edits behind
/// it are separated in the text that it left: they all lie before its start.
pub proof fn lemma_rest_separated(len: int, edits: Seq<Edit>)
    requires
        separated(edits, len),
        edits.len() > 0,
    ensures
        separated(edits.drop_first(), spliced_len(len, edits[0])),
{
    let rest = edits.drop_first();
    let shorter = spliced_len(len, edits[0]);
    assert(fits(edits[0], len));
    assert forall|i: int| 0 <= i < rest.len() implies fits(#[trigger] rest[i], shorter) by {
        assert(rest[i] == edits[i + 1]);
        assert(fits(edits[i + 1], len));
        assert(edits[i + 1].end <= edits[0].start);
    }
    assert forall|i: int, j: int| 0 <= i < j < rest.len() implies (#[trigger] rest[j]).end <= (
    #[trigger] rest[i]).start by {
        assert(rest[i] == edits[i + 1]);
        assert(rest[j] == edits[j + 1]);
    }
}

/// Edits that do not overlap and are listed from the highest offset to the
/// lowest can be applied one after another: none is displaced by those
/// before it.
pub proof fn lemma_separated_applies(len: int, edits: Seq<Edit>)
    requires
        separated(edits, len),
    ensures
        applies(len, edits),
    decreases edits.len(),
{
    if edits.len() > 0 {
        let rest = edits.drop_first();
        let shorter = spliced_len(len, edits[0]);
        lemma_rest_separated(len, edits);
        lemma_separated_applies(shorter, rest);
    }
}

/// The length of the output is the length of the text, less the bytes that
/// the edits take out, plus the bytes that they put in.
pub proof fn lemma_applied_length(text: Seq<u8>, edits: Seq<Edit>)
    requires
        applies(text.len() as int, edits),
    ensures
        apply_in_order(text, edits).len() == text.len() - removed_total(edits) + inserted_total(
            edits,
        ),
    decreases edits.len(),
{
    if edits.len() > 0 {
        lemma_applied_length(splice(text, edits[0]), edits.drop_first());
    }
}

/// For edits that do not overlap, the length of the output is the length of
/// the text, less the sum of the lengths of the replaced ranges, plus the sum
/// of the lengths of the replacements.
pub proof fn lemma_output_length(text: Seq<u8>, edits: Seq<Edit>)
    requires
        separated(edits, text.len() as int),
    ensures
        apply_in_order(text, edits).len() == text.len() - removed_total(edits) + inserted_total(
            edits,
        ),
{
    lemma_separated_applies(text.len() as int, edits);
    lemma_applied_length(text, edits);
}

/// Making the highest edit first changes nothing of what the lower edits
/// rebuild.
proof fn lemma_rebuilt_after_first(text: Seq<u8>, first: Edit, rest: Seq<Edit>, from: int)
    requires
        separated(seq![first] + rest, text.len() as int),
        0 <= from,
        rest.len() > 0 ==> from <= rest.last().start,
        rest.len() == 0 ==> from <= first.start,
    ensures
        rebuilt(splice(text, first), rest, from) == rebuilt(text, seq![first] + rest, from),
    decreases rest.len(),
{
    let all = seq![first] + rest;
    let spliced = splice(text, first);
    assert(all[0] == first);
    assert(fits(all[0], text.len() as int));
    if rest.len() == 0 {
        assert(all.last() == first);
        assert(all.drop_last() =~= Seq::<Edit>::empty());
        assert(rebuilt(text, all.drop_last(), first.end) == text.subrange(
            first.end,
            text.len() as int,
        ));
        assert(spliced.subrange(from, spliced.len() as int) =~= text.subrange(from, first.start)
            + first.text + text.subrange(first.end, text.len() as int));
    } else {
        let lowest = rest.last();
        let upper = rest.drop_last();
        assert(all.last() == lowest);
        assert(all.drop_last() =~= seq![first] + upper);
        assert(all[all.len() - 1] == lowest);
        assert(lowest.end <= first.start);
        assert(fits(all[all.len() - 1], text.len() as int));
        assert forall|i: int| 0 <= i < (seq![first] + upper).len() implies fits(
            #[trigger] (seq![first] + upper)[i],
            text.len() as int,
        ) by {
            assert((seq![first] + upper)[i] == all[i]);
        }
        assert forall|i: int, j: int| 0 <= i < j < (seq![first] + upper).len() implies (
        #[trigger] (seq![first] + upper)[j]).end <= (#[trigger] (seq![first] + upper)[i]).start by {
            assert((seq![first] + upper)[i] == all[i]);
            assert((seq![first] + upper)[j] == all[j]);
        }
        if upper.len() > 0 {
            assert(upper.last() == all[all.len() - 2]);
            assert(all[all.len() - 1].end <= all[all.len() - 2].start);
        }
        lemma_rebuilt_after_first(text, first, upper, lowest.end);
        assert(spliced.subrange(from, lowest.start) =~= text.subrange(from, lowest.start));
    }
}

/// For edits that do not overlap, applying them one after another, from the
/// highest offset to the lowest, gives the text in which all of them were
/// made at once against the unedited text.
pub proof fn lemma_applied_at_once(text: Seq<u8>, edits: Seq<Edit>)
    requires
        separated(edits, text.len() as int),
    ensures
        apply_in_order(text, edits) == rebuilt(text, edits, 0),
    decreases edits.len(),
{
    if edits.len() == 0 {
        assert(text.subrange(0, text.len() as int) =~= text);
    } else {
        let first = edits[0];
        let rest = edits.drop_first();
        let spliced = splice(text, first);
        assert(edits =~= seq![first] + rest);
        lemma_rest_separated(text.len() as int, edits);
        lemma_applied_at_once(spliced, rest);
        if rest.len() > 0 {
            assert(rest.last() == edits[edits.len() - 1]);
            assert(fits(edits[edits.len() - 1], text.len() as int));
        }
        lemma_rebuilt_after_first(text, first, rest, 0);
    }
}

/// `highest_first` lists the edits by falling start offset.
pub proof fn lemma_highest_first_sorted(edits: Seq<Edit>)
    ensures
        highest_first(edits).len() == edits.len(),
        forall|i: int, j: int|
            0 <= i < j < edits.len() ==> (#[trigger] highest_first(edits)[i]).start >= (
            #[trigger] highest_first(edits)[j]).start,
        highest_first(edits).to_multiset() == edits.to_multiset(),
    decreases edits.len(),
{
    if edits.len() > 0 {
        lemma_highest_first_sorted(edits.drop_last());
        lemma_insert_by_start(highest_first(edits.drop_last()), edits.last());
        assert(edits =~= edits.drop_last().push(edits.last()));
        broadcast use vstd::seq_lib::group_to_multiset_ensures;
        assert(edits.to_multiset() =~= edits.drop_last().to_multiset().insert(edits.last()));
    }
}

/// Putting an edit into a list ordered by falling start keeps the order and
/// adds that edit and no other.
proof fn lemma_insert_by_start(sorted: Seq<Edit>, e: Edit)
    requires
        forall|i: int, j: int|
            0 <= i < j < sorted.len() ==> (#[trigger] sorted[i]).start >= (
            #[trigger] sorted[j]).start,
    ensures
        insert_by_start(sorted, e).len() == sorted.len() + 1,
        forall|i: int, j: int|
            0 <= i < j < sorted.len() + 1 ==> (#[trigger] insert_by_start(sorted, e)[i]).start >= (
            #[trigger] insert_by_start(sorted, e)[j]).start,
        forall|i: int|
            0 <= i < sorted.len() + 1 ==> (#[trigger] insert_by_start(sorted, e)[i]).start
                >= e.start || (sorted.len() > 0 && insert_by_start(sorted, e)[i].start
                >= sorted.last().start),
        insert_by_start(sorted, e).to_multiset() == sorted.to_multiset().insert(e),
    decreases sorted.len(),
{
    broadcast use vstd::seq_lib::group_to_multiset_ensures;
    if sorted.len() == 0 || sorted.last().start >= e.start {
        assert(sorted.push(e).to_multiset() =~= sorted.to_multiset().insert(e));
    } else {
        let front = sorted.drop_last();
        lemma_insert_by_start(front, e);
        let placed = insert_by_start(front, e);
        let result = placed.push(sorted.last());
        assert(sorted =~= front.push(sorted.last()));
        assert(sorted.to_multiset() =~= front.to_multiset().insert(sorted.last()));
        assert(result.to_multiset() =~= placed.to_multiset().insert(sorted.last()));
        assert(result.to_multiset() =~= sorted.to_multiset().insert(e));
        assert forall|i: int, j: int| 0 <= i < j < sorted.len() + 1 implies (
        #[trigger] result[i]).start >= (#[trigger] result[j]).start by {
            if j == sorted.len() {
                assert(result[i] == placed[i]);
                if front.len() > 0 {
                    assert(front.last() == sorted[sorted.len() - 2]);
                    assert(sorted[sorted.len() - 2].start >= sorted[sorted.len() - 1].start);
                }
            } else {
                assert(result[i] == placed[i]);
                assert(result[j] == placed[j]);
            }
        }
        assert forall|i: int| 0 <= i < sorted.len() + 1 implies (#[trigger] result[i]).start
            >= e.start || (sorted.len() > 0 && result[i].start >= sorted.last().start) by {
            if i < sorted.len() {
                assert(result[i] == placed[i]);
                if front.len() > 0 {
                    assert(front.last() == sorted[sorted.len() - 2]);
                    assert(sorted[sorted.len() - 2].start >= sorted[sorted.len() - 1].start);
                }
            }
        }
    }
}

/// The edits that start at `start`, in list order.
pub open spec fn starting_at(edits: Seq<Edit>, start: int) -> Seq<Edit> {
    edits.filter(|e: Edit| e.start == start)
}

/// Ordering is stable: the edits that start at one offset keep the order in
/// which they were collected.
pub proof fn lemma_highest_first_stable(edits: Seq<Edit>, start: int)
    ensures
        starting_at(highest_first(edits), start) == starting_at(edits, start),
    decreases edits.len(),
{
    reveal(Seq::filter);
    if edits.len() > 0 {
        lemma_highest_first_stable(edits.drop_last(), start);
        lemma_insert_keeps_groups(highest_first(edits.drop_last()), edits.last(), start);
    }
}

/// Putting an edit into a list adds it at the end of the edits that start
/// where it starts, and leaves the other starts as they were.
proof fn lemma_insert_keeps_groups(sorted: Seq<Edit>, e: Edit, start: int)
    ensures
        starting_at(insert_by_start(sorted, e), start) == if e.start == start {
            starting_at(sorted, start).push(e)
        } else {
            starting_at(sorted, start)
        },
    decreases sorted.len(),
{
    reveal(Seq::filter);
    if sorted.len() == 0 || sorted.last().start >= e.start {
        assert(sorted.push(e).drop_last() =~= sorted);
    } else {
        let front = sorted.drop_last();
        lemma_insert_keeps_groups(front, e, start);
        let placed = insert_by_start(front, e);
        assert(placed.push(sorted.last()).drop_last() =~= placed);
    }
}

/// After deduplication no edit replaces the same range as the edit just
/// before it, and the list ends on the range on which it ended before.
pub proof fn lemma_without_repeats(edits: Seq<Edit>)
    ensures
        without_repeats(edits).len() <= edits.len(),
        edits.len() > 0 ==> without_repeats(edits).len() > 0 && without_repeats(edits)[0]
            == edits[0] && same_range(without_repeats(edits).last(), edits.last()),
        forall|i: int|
            0 < i < without_repeats(edits).len() ==> !same_range(
                without_repeats(edits)[i - 1],
                #[trigger] without_repeats(edits)[i],
            ),
    decreases edits.len(),
{
    if edits.len() > 1 {
        lemma_without_repeats(edits.drop_last());
        assert(edits.drop_last().last() == edits[edits.len() - 2]);
        assert(edits.drop_last()[0] == edits[0]);
    }
}

/// The edit's text is UTF-8 and its range starts and ends between two
/// characters of `text`.
pub open spec fn on_boundaries(text: Seq<u8>, e: Edit) -> bool {
    &&& valid_utf8(e.text)
    &&& is_char_boundary(text, e.start)
    &&& is_char_boundary(text, e.end)
}

/// An edit between characters keeps UTF-8 text UTF-8, and every boundary
/// at or before its start stays a boundary.
proof fn lemma_splice_keeps_utf8(text: Seq<u8>, e: Edit)
    requires
        valid_utf8(text),
        fits(e, text.len() as int),
        on_boundaries(text, e),
    ensures
        valid_utf8(splice(text, e)),
        forall|i: int|
            0 <= i <= e.start && is_char_boundary(text, i) ==> #[trigger] is_char_boundary(
                splice(text, e),
                i,
            ),
{
    let head = text.subrange(0, e.start);
    let tail = text.subrange(e.end, text.len() as int);
    let behind = e.text + tail;
    let spliced = splice(text, e);
    valid_utf8_split(text, e.start);
    valid_utf8_split(text, e.end);
    valid_utf8_concat(e.text, tail);
    valid_utf8_concat(head, behind);
    assert(spliced =~= head + behind);
    assert forall|i: int| 0 <= i <= e.start && is_char_boundary(text, i) implies #[trigger]
        is_char_boundary(spliced, i) by {
        if i == 0 {
        } else if i == spliced.len() {
            is_char_boundary_start_end_of_seq(spliced);
        } else if i < e.start {
            is_char_boundary_iff_not_is_continuation_byte(text, i);
            is_char_boundary_iff_not_is_continuation_byte(spliced, i);
            assert(spliced[i] == text[i]);
        } else {
            is_char_boundary_start_end_of_seq(behind);
            is_char_boundary_iff_not_is_continuation_byte(behind, 0);
            is_char_boundary_iff_not_is_continuation_byte(spliced, i);
            assert(spliced[i] == behind[0]);
        }
    }
}

/// Edits that do not overlap, hold UTF-8 and fall between the characters of
/// a UTF-8 text leave a UTF-8 text.
pub proof fn lemma_applied_text_is_utf8(text: Seq<u8>, edits: Seq<Edit>)
    requires
        valid_utf8(text),
        separated(edits, text.len() as int),
        forall|i: int| 0 <= i < edits.len() ==> on_boundaries(text, #[trigger] edits[i]),
    ensures
        valid_utf8(apply_in_order(text, edits)),
    decreases edits.len(),
{
    if edits.len() > 0 {
        let first = edits[0];
        let rest = edits.drop_first();
        let spliced = splice(text, first);
        lemma_splice_keeps_utf8(text, first);
        lemma_rest_separated(text.len() as int, edits);
        assert forall|i: int| 0 <= i < rest.len() implies on_boundaries(
            spliced,
            #[trigger] rest[i],
        ) by {
            assert(rest[i] == edits[i + 1]);
            assert(edits[i + 1].end <= edits[0].start);
            assert(on_boundaries(text, edits[i + 1]));
        }
        lemma_applied_text_is_utf8(spliced, rest);
    }
}

/// Two lists of edits that fit, one after the other, fit.
pub proof fn lemma_all_fit_concat(front: Seq<Edit>, back: Seq<Edit>, len: int)
    requires
        all_fit(front, len),
        all_fit(back, len),
    ensures
        all_fit(front + back, len),
{
    assert forall|i: int| 0 <= i < (front + back).len() implies fits(
        #[trigger] (front + back)[i],
        len,
    ) by {
        if i < front.len() {
            assert((front + back)[i] == front[i]);
        } else {
            assert((front + back)[i] == back[i - front.len()]);
        }
    }
}

/// Two edits replace the same range, or ranges that start at different
/// offsets and share no byte.
pub open spec fn apart(a: Edit, b: Edit) -> bool {
    same_range(a, b) || (a.start != b.start && (a.end <= b.start || b.end <= a.start))
}

/// No two of the edits overlap, in whatever order they are listed. Edits
/// that replace the same range count as one.
pub open spec fn non_overlapping(edits: Seq<Edit>) -> bool {
    forall|i: int, j: int|
        0 <= i < edits.len() && 0 <= j < edits.len() ==> apart(
            #[trigger] edits[i],
            #[trigger] edits[j],
        )
}

/// Each edit replaces the same range as an edit listed before it, or ends
/// at or before the start of that edit.
spec fn falling(edits: Seq<Edit>) -> bool {
    forall|i: int, j: int|
        0 <= i < j < edits.len() ==> same_range(#[trigger] edits[i], #[trigger] edits[j])
            || edits[j].end <= edits[i].start
}

/// Ordering edits that do not overlap lists them from the highest range to
/// the lowest, equal ranges side by side.
proof fn lemma_highest_first_falling(edits: Seq<Edit>, len: int)
    requires
        all_fit(edits, len),
        non_overlapping(edits),
    ensures
        all_fit(highest_first(edits), len),
        falling(highest_first(edits)),
{
    broadcast use vstd::seq_lib::group_to_multiset_ensures;

    let sorted = highest_first(edits);
    lemma_highest_first_sorted(edits);
    assert forall|i: int| 0 <= i < sorted.len() implies edits.contains(#[trigger] sorted[i]) by {
        assert(sorted.contains(sorted[i]));
        assert(sorted.to_multiset().count(sorted[i]) > 0);
        assert(edits.to_multiset().count(sorted[i]) > 0);
    }
    assert forall|i: int| 0 <= i < sorted.len() implies fits(#[trigger] sorted[i], len) by {
        assert(edits.contains(sorted[i]));
        let p = choose|p: int| 0 <= p < edits.len() && edits[p] == sorted[i];
        assert(fits(edits[p], len));
    }
    assert forall|i: int, j: int| 0 <= i < j < sorted.len() implies same_range(
        #[trigger] sorted[i],
        #[trigger] sorted[j],
    ) || sorted[j].end <= sorted[i].start by {
        assert(edits.contains(sorted[i]));
        assert(edits.contains(sorted[j]));
        let p = choose|p: int| 0 <= p < edits.len() && edits[p] == sorted[i];
        let q = choose|q: int| 0 <= q < edits.len() && edits[q] == sorted[j];
        assert(apart(edits[p], edits[q]));
        assert(fits(sorted[i], len));
        assert(sorted[i].start >= sorted[j].start);
    }
}

/// Dropping repeats from edits that fall leaves edits that do not overlap
/// and are listed from the highest offset to the lowest.
proof fn lemma_without_repeats_separated(edits: Seq<Edit>, len: int)
    requires
        all_fit(edits, len),
        falling(edits),
    ensures
        separated(without_repeats(edits), len),
        forall|k: int|
            0 <= k < without_repeats(edits).len() ==> edits.contains(
                #[trigger] without_repeats(edits)[k],
            ),
    decreases edits.len(),
{
    let n = edits.len() as int;
    if n <= 1 {
        assert forall|k: int| 0 <= k < edits.len() implies edits.contains(#[trigger] edits[k]) by {}
    } else {
        let front = edits.drop_last();
        let last = edits.last();
        let kept = without_repeats(front);
        assert forall|i: int| 0 <= i < front.len() implies fits(#[trigger] front[i], len) by {
            assert(front[i] == edits[i]);
        }
        assert forall|i: int, j: int| 0 <= i < j < front.len() implies same_range(
            #[trigger] front[i],
            #[trigger] front[j],
        ) || front[j].end <= front[i].start by {
            assert(front[i] == edits[i]);
            assert(front[j] == edits[j]);
        }
        lemma_without_repeats_separated(front, len);
        assert forall|k: int| 0 <= k < kept.len() implies edits.contains(#[trigger] kept[k]) by {
            assert(front.contains(kept[k]));
            let m = choose|m: int| 0 <= m < front.len() && front[m] == kept[k];
            assert(edits[m] == kept[k]);
        }
        if !same_range(edits[n - 2], last) {
            let result = kept.push(last);
            assert(edits[n - 1] == last);
            assert(fits(edits[n - 1], len));
            assert(fits(edits[n - 2], len));
            assert(same_range(edits[n - 2], edits[n - 1]) || edits[n - 1].end <= edits[n - 2].start);
            assert forall|i: int, j: int| 0 <= i < j < result.len() implies (
            #[trigger] result[j]).end <= (#[trigger] result[i]).start by {
                if j < kept.len() {
                    assert(result[i] == kept[i]);
                    assert(result[j] == kept[j]);
                } else {
                    assert(result[i] == kept[i]);
                    assert(front.contains(kept[i]));
                    let m = choose|m: int| 0 <= m < front.len() && front[m] == kept[i];
                    assert(edits[m] == kept[i]);
                    assert(fits(edits[m], len));
                    assert(same_range(edits[m], edits[n - 1]) || edits[n - 1].end
                        <= edits[m].start);
                    if m < n - 2 {
                        assert(same_range(edits[m], edits[n - 2]) || edits[n - 2].end
                            <= edits[m].start);
                    }
                }
            }
            assert forall|k: int| 0 <= k < result.len() implies fits(#[trigger] result[k], len)
                && edits.contains(result[k]) by {
                if k < kept.len() {
                    assert(result[k] == kept[k]);
                    assert(fits(kept[k], len));
                } else {
                    assert(result[k] == edits[n - 1]);
                }
            }
        }
    }
}

/// Resolving edits that do not overlap, in whatever order they were
/// collected, gives edits that are listed from the highest offset to the
/// lowest and do not overlap.
pub proof fn lemma_resolved_separated(edits: Seq<Edit>, len: int)
    requires
        all_fit(edits, len),
        non_overlapping(edits),
    ensures
        separated(resolved(edits), len),
{
    lemma_highest_first_falling(edits, len);
    lemma_without_repeats_separated(highest_first(edits), len);
}

/// For a set of edits that do not overlap, the final text is the one in
/// which every resolved edit was made at once against the unedited text, and
/// its length is that of the text, less the lengths of the replaced ranges,
/// plus the lengths of the replacements.
pub proof fn lemma_non_overlapping_set(text: Seq<u8>, edits: Seq<Edit>)
    requires
        all_fit(edits, text.len() as int),
        non_overlapping(edits),
    ensures
        applies(text.len() as int, resolved(edits)),
        apply_in_order(text, resolved(edits)) == rebuilt(text, resolved(edits), 0),
        apply_in_order(text, resolved(edits)).len() == text.len() - removed_total(resolved(edits))
            + inserted_total(resolved(edits)),
{
    lemma_resolved_separated(edits, text.len() as int);
    lemma_separated_applies(text.len() as int, resolved(edits));
    lemma_applied_at_once(text, resolved(edits));
    lemma_output_length(text, resolved(edits));
}

} // verus!
