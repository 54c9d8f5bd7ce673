//! The import statements that are put in front of the output.

use crate::rules::{listed, AddImport, TransformOptions};
use crate::text::{append_bytes, join_texts, joined, texts_of};
use vstd::prelude::*;
use vstd::slice::slice_to_vec;
use vstd::string::StringSliceAdditionalSpecFns;
use vstd::utf8::encode_utf8;

verus! {

/// The named bindings in braces: `{ a, b }`.
pub open spec fn braces(names: Seq<Seq<u8>>) -> Seq<u8> {
    "{ ".spec_bytes() + joined(names, ", ".spec_bytes()) + " }".spec_bytes()
}

/// What stands between `import` and `from`: the default binding, the named
/// bindings in braces, or both with a comma between; nothing where the
/// statement binds no name.
pub open spec fn bindings(add: AddImport) -> Option<Seq<u8>> {
    let names = listed(add.names);
    match add.default_name {
        Some(default_name) => if names.len() > 0 {
            Some(default_name@ + ", ".spec_bytes() + braces(names))
        } else {
            Some(default_name@)
        },
        None => if names.len() > 0 {
            Some(braces(names))
        } else {
            None
        },
    }
}

/// The text of one statement: `import <bindings> from "<from>";` and a line
/// feed, or `import "<from>";` and a line feed where it binds no name.
pub open spec fn import_statement(add: AddImport) -> Seq<u8> {
    match bindings(add) {
        Some(bound) => "import ".spec_bytes() + bound + " from \"".spec_bytes() + add.from@
            + "\";\n".spec_bytes(),
        None => "import \"".spec_bytes() + add.from@ + "\";\n".spec_bytes(),
    }
}

/// The statements one after another, in the order given.
pub open spec fn statements(adds: Seq<AddImport>) -> Seq<u8>
    decreases adds.len(),
{
    if adds.len() == 0 {
        Seq::empty()
    } else {
        statements(adds.drop_last()) + import_statement(adds.last())
    }
}

/// The statements that the rule set asks for.
pub open spec fn added_imports(options: TransformOptions) -> Seq<AddImport> {
    match options.imports {
        Some(rules) => match rules.add_import {
            Some(adds) => adds@,
            None => Seq::empty(),
        },
        None => Seq::empty(),
    }
}

/// The text that the rule set puts in front of the output.
pub open spec fn prefix_text(options: TransformOptions) -> Seq<u8> {
    statements(added_imports(options))
}

/// Writes out what stands between `import` and `from`.
fn build_bindings(add: &AddImport) -> (bound: Option<Vec<u8>>)
    ensures
        match bound {
            Some(text) => bindings(*add) == Some(text@),
            None => bindings(*add) is None,
        },
{
    let named: Option<Vec<u8>> = match &add.names {
        Some(names) => if names.len() > 0 {
            let mut text = slice_to_vec("{ ".as_bytes());
            let list = join_texts(names, ", ".as_bytes());
            append_bytes(&mut text, list.as_slice());
            append_bytes(&mut text, " }".as_bytes());
            Some(text)
        } else {
            None
        },
        None => None,
    };
    assert(match named {
        Some(text) => listed(add.names).len() > 0 && text@ == braces(listed(add.names)),
        None => listed(add.names).len() == 0,
    });
    match &add.default_name {
        Some(default_name) => {
            let mut text = slice_to_vec(default_name.as_slice());
            match named {
                Some(braced) => {
                    append_bytes(&mut text, ", ".as_bytes());
                    append_bytes(&mut text, braced.as_slice());
                },
                None => {},
            }
            Some(text)
        },
        None => named,
    }
}

/// Writes out one import statement.
pub fn build_import_statement(add: &AddImport) -> (statement: Vec<u8>)
    ensures
        statement@ == import_statement(*add),
{
    match build_bindings(add) {
        Some(bound) => {
            let mut text = slice_to_vec("import ".as_bytes());
            append_bytes(&mut text, bound.as_slice());
            append_bytes(&mut text, " from \"".as_bytes());
            append_bytes(&mut text, add.from.as_slice());
            append_bytes(&mut text, "\";\n".as_bytes());
            text
        },
        None => {
            let mut text = slice_to_vec("import \"".as_bytes());
            append_bytes(&mut text, add.from.as_slice());
            append_bytes(&mut text, "\";\n".as_bytes());
            text
        },
    }
}

/// Writes out the statements that the rule set puts in front of the output.
pub fn build_prefix(options: &TransformOptions) -> (prefix: Vec<u8>)
    ensures
        prefix@ == prefix_text(*options),
{
    let mut prefix: Vec<u8> = Vec::new();
    let adds = match &options.imports {
        Some(rules) => match &rules.add_import {
            Some(adds) => adds,
            None => {
                return prefix;
            },
        },
        None => {
            return prefix;
        },
    };
    let mut i: usize = 0;
    assert(adds@.take(0) =~= Seq::<AddImport>::empty());
    while i < adds.len()
        invariant
            i <= adds.len(),
            prefix@ == statements(adds@.take(i as int)),
        decreases adds.len() - i,
    {
        assert(adds@.take(i + 1).drop_last() =~= adds@.take(i as int));
        let statement = build_import_statement(&adds[i]);
        append_bytes(&mut prefix, statement.as_slice());
        i = i + 1;
    }
    assert(adds@.take(i as int) =~= adds@);
    prefix
}

/// No statement is empty.
pub proof fn lemma_statement_not_empty(add: AddImport)
    ensures
        import_statement(add).len() > 0,
{
    reveal_strlit("\";\n");
    let tail = "\";\n"@;
    assert(tail.len() == 3);
    assert(encode_utf8(tail).len() > 0);
}

/// The prefix is empty exactly where the rule set adds no import.
pub proof fn lemma_prefix_empty(options: TransformOptions)
    ensures
        prefix_text(options).len() == 0 <==> added_imports(options).len() == 0,
{
    let adds = added_imports(options);
    if adds.len() > 0 {
        lemma_statement_not_empty(adds.last());
    }
}

} // verus!
