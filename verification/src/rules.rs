//! The rule set: what a caller asks to be rewritten.

use crate::patch::{edits_of, push_patch, Edit, Patch};
use crate::text::{bytes_equal, contains_name, texts_of};
use vstd::prelude::*;
use vstd::slice::slice_to_vec;
use vstd::string::StringSliceAdditionalSpecFns;

verus! {

/// One key of a [`TextMap`] with the text it maps to.
struct TextEntry {
    key: Vec<u8>,
    value: Vec<u8>,
}

/// A finite map from text to text. No key is held twice.
///
/// The entries are held in a list and found by comparing keys: vstd
/// specifies the standard hash map only for keys whose hashing it knows to
/// agree with equality, which are the integers and not texts.
pub struct TextMap {
    entries: Vec<TextEntry>,
}

/// `i` is the place of `key` in `entries`.
spec fn holds_at(entries: Seq<TextEntry>, key: Seq<u8>, i: int) -> bool {
    0 <= i < entries.len() && entries[i].key@ == key
}

/// No key stands at two places.
spec fn distinct(entries: Seq<TextEntry>) -> bool {
    forall|i: int, j: int|
        0 <= i < j < entries.len() ==> (#[trigger] entries[i]).key@ != (#[trigger] entries[j]).key@
}

/// The map that the entries stand for.
spec fn map_of(entries: Seq<TextEntry>) -> Map<Seq<u8>, Seq<u8>> {
    Map::new(
        |key: Seq<u8>| exists|i: int| holds_at(entries, key, i),
        |key: Seq<u8>| entries[choose|i: int| holds_at(entries, key, i)].value@,
    )
}

proof fn lemma_lookup(entries: Seq<TextEntry>, key: Seq<u8>, i: int)
    requires
        distinct(entries),
        holds_at(entries, key, i),
    ensures
        map_of(entries).contains_key(key),
        map_of(entries)[key] == entries[i].value@,
{
    let j = choose|j: int| holds_at(entries, key, j);
    if j < i {
        assert(entries[j].key@ != entries[i].key@);
    } else if i < j {
        assert(entries[i].key@ != entries[j].key@);
    }
}

/// Putting `key` with `value` at place `p`, which either held `key` or is
/// the first free place, maps `key` to `value` and changes nothing else.
proof fn lemma_put(
    before: Seq<TextEntry>,
    after: Seq<TextEntry>,
    p: int,
    key: Seq<u8>,
    value: Seq<u8>,
)
    requires
        distinct(before),
        0 <= p <= before.len(),
        p == before.len() ==> after.len() == before.len() + 1,
        p < before.len() ==> after.len() == before.len(),
        forall|j: int| 0 <= j < before.len() && j != p ==> after[j] == before[j],
        after[p].key@ == key,
        after[p].value@ == value,
        p < before.len() ==> before[p].key@ == key,
        p == before.len() ==> forall|j: int| !holds_at(before, key, j),
    ensures
        distinct(after),
        map_of(after) == map_of(before).insert(key, value),
{
    assert forall|i: int, j: int| 0 <= i < j < after.len() implies (#[trigger] after[i]).key@ != (
    #[trigger] after[j]).key@ by {
        if j == before.len() {
            assert(!holds_at(before, key, i));
        } else {
            assert(before[i].key@ != before[j].key@);
        }
    }
    assert(holds_at(after, key, p));
    lemma_lookup(after, key, p);
    assert forall|c: Seq<u8>| #[trigger]
        map_of(after).contains_key(c) == map_of(before).insert(key, value).contains_key(
            c,
        ) && (map_of(after).contains_key(c) ==> map_of(after)[c] == map_of(before).insert(
            key,
            value,
        )[c]) by {
        if c != key {
            if map_of(after).contains_key(c) {
                let j = choose|j: int| holds_at(after, c, j);
                assert(holds_at(before, c, j));
                lemma_lookup(after, c, j);
                lemma_lookup(before, c, j);
            }
            if map_of(before).contains_key(c) {
                let j = choose|j: int| holds_at(before, c, j);
                assert(holds_at(after, c, j));
            }
        }
    }
    assert(map_of(after) =~= map_of(before).insert(key, value));
}

impl View for TextMap {
    type V = Map<Seq<u8>, Seq<u8>>;

    closed spec fn view(&self) -> Map<Seq<u8>, Seq<u8>> {
        map_of(self.entries@)
    }
}

impl TextMap {
    #[verifier::type_invariant]
    spec fn keys_are_distinct(&self) -> bool {
        distinct(self.entries@)
    }

    /// The empty map.
    pub fn new() -> (map: TextMap)
        ensures
            map@ == Map::<Seq<u8>, Seq<u8>>::empty(),
    {
        let map = TextMap { entries: Vec::new() };
        assert(map@ =~= Map::<Seq<u8>, Seq<u8>>::empty());
        map
    }

    /// Place of `key` among the entries, if it is held.
    fn position(&self, key: &[u8]) -> (place: Option<usize>)
        ensures
            match place {
                Some(i) => holds_at(self.entries@, key@, i as int),
                None => forall|i: int| !holds_at(self.entries@, key@, i),
            },
    {
        let mut i: usize = 0;
        while i < self.entries.len()
            invariant
                i <= self.entries.len(),
                forall|k: int| 0 <= k < i ==> !holds_at(self.entries@, key@, k),
            decreases self.entries.len() - i,
        {
            if bytes_equal(self.entries[i].key.as_slice(), key) {
                return Some(i);
            }
            i = i + 1;
        }
        None
    }

    /// The text that `key` maps to.
    pub fn get(&self, key: &[u8]) -> (value: Option<&Vec<u8>>)
        ensures
            match value {
                Some(v) => self@.contains_key(key@) && v@ == self@[key@],
                None => !self@.contains_key(key@),
            },
    {
        proof {
            use_type_invariant(self);
        }
        match self.position(key) {
            Some(i) => {
                proof {
                    lemma_lookup(self.entries@, key@, i as int);
                }
                Some(&self.entries[i].value)
            },
            None => None,
        }
    }

    /// Every key with the text it maps to, each key once.
    pub fn entries(&self) -> (pairs: Vec<(Vec<u8>, Vec<u8>)>)
        ensures
            forall|key: Seq<u8>|
                self@.contains_key(key) <==> exists|i: int|
                    0 <= i < pairs@.len() && (#[trigger] pairs@[i]).0@ == key,
            forall|i: int|
                0 <= i < pairs@.len() ==> self@.contains_key((#[trigger] pairs@[i]).0@)
                    && self@[pairs@[i].0@] == pairs@[i].1@,
            forall|i: int, j: int|
                0 <= i < j < pairs@.len() ==> (#[trigger] pairs@[i]).0@ != (#[trigger] pairs@[j]).0@,
    {
        proof {
            use_type_invariant(self);
        }
        let mut pairs: Vec<(Vec<u8>, Vec<u8>)> = Vec::new();
        let mut i: usize = 0;
        while i < self.entries.len()
            invariant
                i <= self.entries.len(),
                pairs@.len() == i,
                forall|k: int|
                    0 <= k < i ==> (#[trigger] pairs@[k]).0@ == self.entries@[k].key@ && pairs@[k].1@
                        == self.entries@[k].value@,
            decreases self.entries.len() - i,
        {
            let entry = &self.entries[i];
            pairs.push((slice_to_vec(entry.key.as_slice()), slice_to_vec(entry.value.as_slice())));
            i = i + 1;
        }
        proof {
            let held = self.entries@;
            assert forall|key: Seq<u8>|
                self@.contains_key(key) <==> exists|i: int|
                    0 <= i < pairs@.len() && (#[trigger] pairs@[i]).0@ == key by {
                if self@.contains_key(key) {
                    let at = choose|at: int| holds_at(held, key, at);
                    assert(pairs@[at].0@ == key);
                }
                if exists|i: int| 0 <= i < pairs@.len() && (#[trigger] pairs@[i]).0@ == key {
                    let at = choose|i: int| 0 <= i < pairs@.len() && (#[trigger] pairs@[i]).0@ == key;
                    assert(holds_at(held, key, at));
                }
            }
            assert forall|i: int| 0 <= i < pairs@.len() implies self@.contains_key(
                (#[trigger] pairs@[i]).0@,
            ) && self@[pairs@[i].0@] == pairs@[i].1@ by {
                assert(holds_at(held, pairs@[i].0@, i));
                lemma_lookup(held, pairs@[i].0@, i);
            }
            assert forall|i: int, j: int| 0 <= i < j < pairs@.len() implies (
            #[trigger] pairs@[i]).0@ != (#[trigger] pairs@[j]).0@ by {
                assert(held[i].key@ != held[j].key@);
            }
        }
        pairs
    }

    /// Maps `key` to `value`, in place of what it mapped to before.
    pub fn insert(&mut self, key: Vec<u8>, value: Vec<u8>)
        ensures
            final(self)@ == old(self)@.insert(key@, value@),
    {
        proof {
            use_type_invariant(&*self);
        }
        let place = self.position(key.as_slice());
        let mut taken = TextMap { entries: Vec::new() };
        core::mem::swap(self, &mut taken);
        let mut entries = taken.entries;
        let ghost before = entries@;
        let ghost k = key@;
        let ghost v = value@;
        match place {
            Some(i) => {
                entries.set(i, TextEntry { key, value });
                proof {
                    lemma_put(before, entries@, i as int, k, v);
                }
            },
            None => {
                entries.push(TextEntry { key, value });
                proof {
                    lemma_put(before, entries@, before.len() as int, k, v);
                }
            },
        }
        *self = TextMap { entries };
    }
}

/// An import statement to put in front of the output.
pub struct AddImport {
    /// The module to import from.
    pub from: Vec<u8>,
    /// Named bindings, in the order in which they are written out.
    pub names: Option<Vec<Vec<u8>>>,
    /// The default binding.
    pub default_name: Option<Vec<u8>>,
}

/// A literal text substitution.
pub struct ReplaceTextRule {
    pub match_text: Vec<u8>,
    pub replace: Vec<u8>,
    /// Where the rule looks: unset or `member-expression` for the source text
    /// of a member expression, `string-literal` or `import-source` for every
    /// occurrence in the file.
    pub context: Option<Vec<u8>>,
}

/// Rewrites of import declarations.
pub struct ImportTransforms {
    /// New module text by old module text.
    pub replace_source: Option<TextMap>,
    /// New local name by old local name.
    pub rename_specifier: Option<TextMap>,
    /// Names whose specifiers are taken out.
    pub remove_specifier: Option<Vec<Vec<u8>>>,
    /// Statements to put in front of the output, in this order.
    pub add_import: Option<Vec<AddImport>>,
}

/// The whole rule set of one run. Every part is optional.
pub struct TransformOptions {
    /// New identifier text by old identifier text.
    pub renames: Option<TextMap>,
    pub imports: Option<ImportTransforms>,
    /// Property names that are stripped from JSX tags of the form
    /// `Object.Property`.
    pub remove_jsx_member_suffix: Option<Vec<Vec<u8>>>,
    pub replace_text: Option<Vec<ReplaceTextRule>>,
}

impl TransformOptions {
    /// No part of the rule set is given.
    pub open spec fn is_empty(&self) -> bool {
        &&& self.renames is None
        &&& self.imports is None
        &&& self.remove_jsx_member_suffix is None
        &&& self.replace_text is None
    }

    /// Every rule that is matched against the raw source has a match text
    /// that is not empty, so that the scan for it ends.
    pub open spec fn well_formed(&self) -> bool {
        match self.replace_text {
            Some(rules) => forall|i: int|
                0 <= i < rules@.len() ==> ((#[trigger] rules@[i]).plain_text()
                    ==> rules@[i].match_text@.len() > 0),
            None => true,
        }
    }
}

impl TransformOptions {
    /// Whether every rule that is matched against the raw source has a match
    /// text that is not empty.
    pub fn is_well_formed(&self) -> (yes: bool)
        ensures
            yes == self.well_formed(),
    {
        match &self.replace_text {
            Some(rules) => {
                let mut i: usize = 0;
                while i < rules.len()
                    invariant
                        i <= rules.len(),
                        self.replace_text == Some(*rules),
                        forall|k: int|
                            0 <= k < i ==> ((#[trigger] rules@[k]).plain_text()
                                ==> rules@[k].match_text@.len() > 0),
                    decreases rules.len() - i,
                {
                    if rules[i].is_plain_text() && rules[i].match_text.len() == 0 {
                        assert(rules@[i as int].plain_text());
                        return false;
                    }
                    i = i + 1;
                }
                true
            },
            None => true,
        }
    }
}

/// What `key` maps to in an optional map.
pub open spec fn mapped(map: Option<TextMap>, key: Seq<u8>) -> Option<Seq<u8>> {
    match map {
        Some(m) => if m@.contains_key(key) {
            Some(m@[key])
        } else {
            None
        },
        None => None,
    }
}

/// What `key` maps to in an optional map.
pub fn lookup<'a>(map: &'a Option<TextMap>, key: &[u8]) -> (value: Option<&'a Vec<u8>>)
    ensures
        match value {
            Some(v) => mapped(*map, key@) == Some(v@),
            None => mapped(*map, key@) is None,
        },
{
    match map {
        Some(m) => m.get(key),
        None => None,
    }
}

/// The edit that replaces `[start, end)` by what `key` maps to, where it maps
/// to anything.
pub open spec fn mapped_edit(map: Option<TextMap>, key: Seq<u8>, start: int, end: int) -> Seq<
    Edit,
> {
    match mapped(map, key) {
        Some(text) => seq![Edit { start, end, text }],
        None => Seq::empty(),
    }
}

/// Adds the patch that replaces `[start, end)` by what `key` maps to, where
/// it maps to anything.
pub fn push_mapped(out: &mut Vec<Patch>, map: &Option<TextMap>, key: &[u8], start: usize, end: usize)
    ensures
        edits_of(final(out)@) == edits_of(old(out)@) + mapped_edit(
            *map,
            key@,
            start as int,
            end as int,
        ),
{
    match lookup(map, key) {
        Some(text) => {
            push_patch(out, start, end, text.as_slice());
            assert(edits_of(out@) =~= edits_of(old(out)@) + mapped_edit(
                *map,
                key@,
                start as int,
                end as int,
            ));
        },
        None => {
            assert(edits_of(out@) =~= edits_of(old(out)@) + mapped_edit(
                *map,
                key@,
                start as int,
                end as int,
            ));
        },
    }
}

/// The names of an optional list.
pub open spec fn listed(list: Option<Vec<Vec<u8>>>) -> Seq<Seq<u8>> {
    match list {
        Some(names) => texts_of(names@),
        None => Seq::empty(),
    }
}

/// Whether `name` is in an optional list of names.
pub fn is_listed(list: &Option<Vec<Vec<u8>>>, name: &[u8]) -> (found: bool)
    ensures
        found == listed(*list).contains(name@),
{
    match list {
        Some(names) => contains_name(names, name),
        None => false,
    }
}

/// Context marker of rules that look at member expressions.
pub open spec fn member_expression_marker() -> Seq<u8> {
    "member-expression".spec_bytes()
}

/// Context marker of rules that look at the whole file.
pub open spec fn string_literal_marker() -> Seq<u8> {
    "string-literal".spec_bytes()
}

/// Second context marker of rules that look at the whole file.
pub open spec fn import_source_marker() -> Seq<u8> {
    "import-source".spec_bytes()
}

impl ReplaceTextRule {
    /// The rule is matched against the source text of member expressions.
    pub open spec fn structural(&self) -> bool {
        match self.context {
            Some(context) => context@ == member_expression_marker(),
            None => true,
        }
    }

    /// The rule is matched against the raw source, wherever its text occurs.
    pub open spec fn plain_text(&self) -> bool {
        match self.context {
            Some(context) => context@ == string_literal_marker() || context@
                == import_source_marker(),
            None => false,
        }
    }

    /// Whether the rule is matched against member expressions.
    pub fn is_structural(&self) -> (yes: bool)
        ensures
            yes == self.structural(),
    {
        match &self.context {
            Some(context) => bytes_equal(context.as_slice(), "member-expression".as_bytes()),
            None => true,
        }
    }

    /// Whether the rule is matched against the raw source.
    pub fn is_plain_text(&self) -> (yes: bool)
        ensures
            yes == self.plain_text(),
    {
        match &self.context {
            Some(context) => bytes_equal(context.as_slice(), "string-literal".as_bytes())
                || bytes_equal(context.as_slice(), "import-source".as_bytes()),
            None => false,
        }
    }
}

} // verus!
