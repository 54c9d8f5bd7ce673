//! The parts of a parsed module that the rewriting rules read.
//!
//! A parser hands over its tree in this form: only the node kinds that a rule
//! can match, each with the spans and names that the rules look at, nested as
//! they are nested in the source.

use vstd::prelude::*;

verus! {

/// A half-open byte range `[start, end)` of the source text.
#[derive(Clone, Copy, Debug, PartialEq, Eq, Structural)]
pub struct Span {
    pub start: usize,
    pub end: usize,
}

impl Span {
    /// The span is ordered and lies inside a text of `len` bytes.
    pub open spec fn within(&self, len: int) -> bool {
        self.start <= self.end <= len
    }

    /// Whether the span is ordered and lies inside a text of `len` bytes.
    pub fn is_within(&self, len: usize) -> (yes: bool)
        ensures
            yes == self.within(len as int),
    {
        self.start <= self.end && self.end <= len
    }
}

/// An identifier occurrence: a binding, a reference or a plain name.
pub struct Identifier {
    pub span: Span,
    pub name: Vec<u8>,
}

/// A string literal. Its span covers the two quote characters.
pub struct StringLiteral {
    pub span: Span,
    pub value: Vec<u8>,
}

/// One imported binding of an import declaration.
pub enum ImportSpecifier {
    /// `imported` or `imported as local`.
    Named { span: Span, imported: Vec<u8>, local: Identifier },
    /// `local` in `import local from "m"`.
    Default { span: Span, local: Identifier },
    /// `* as local`.
    Namespace { span: Span, local: Identifier },
}

impl ImportSpecifier {
    /// The span of the whole specifier.
    pub open spec fn spec_span(&self) -> Span {
        match *self {
            ImportSpecifier::Named { span, .. } => span,
            ImportSpecifier::Default { span, .. } => span,
            ImportSpecifier::Namespace { span, .. } => span,
        }
    }

    /// The binding that the specifier introduces.
    pub open spec fn spec_local(&self) -> Identifier {
        match *self {
            ImportSpecifier::Named { local, .. } => local,
            ImportSpecifier::Default { local, .. } => local,
            ImportSpecifier::Namespace { local, .. } => local,
        }
    }

    /// Both spans of the specifier lie inside a text of `len` bytes.
    pub open spec fn within(&self, len: int) -> bool {
        self.spec_span().within(len) && self.spec_local().span.within(len)
    }

    /// The span of the whole specifier.
    pub fn span(&self) -> (span: Span)
        ensures
            span == self.spec_span(),
    {
        match self {
            ImportSpecifier::Named { span, .. } => *span,
            ImportSpecifier::Default { span, .. } => *span,
            ImportSpecifier::Namespace { span, .. } => *span,
        }
    }

    /// The binding that the specifier introduces.
    pub fn local(&self) -> (local: &Identifier)
        ensures
            *local == self.spec_local(),
    {
        match self {
            ImportSpecifier::Named { local, .. } => local,
            ImportSpecifier::Default { local, .. } => local,
            ImportSpecifier::Namespace { local, .. } => local,
        }
    }
}

/// An import declaration.
pub struct ImportDeclaration {
    pub span: Span,
    /// The module string.
    pub source: StringLiteral,
    /// The specifiers in source order; empty for `import "m"`.
    pub specifiers: Vec<ImportSpecifier>,
}

impl ImportDeclaration {
    /// Every span of the declaration lies inside a text of `len` bytes, and
    /// the module string has room for its two quotes.
    pub open spec fn within(&self, len: int) -> bool {
        &&& self.span.within(len)
        &&& self.source.span.within(len)
        &&& self.source.span.start + 2 <= self.source.span.end
        &&& forall|i: int| 0 <= i < self.specifiers@.len() ==> (#[trigger] self.specifiers@[i]).within(len)
    }

    /// Whether every span of the declaration lies inside a text of `len`
    /// bytes and the module string has room for its two quotes.
    pub fn is_within(&self, len: usize) -> (yes: bool)
        ensures
            yes == self.within(len as int),
    {
        if !self.span.is_within(len) || !self.source.span.is_within(len) || self.source.span.end
            - self.source.span.start < 2 {
            return false;
        }
        let mut i: usize = 0;
        while i < self.specifiers.len()
            invariant
                i <= self.specifiers.len(),
                forall|k: int| 0 <= k < i ==> (#[trigger] self.specifiers@[k]).within(len as int),
            decreases self.specifiers.len() - i,
        {
            if !self.specifiers[i].span().is_within(len) || !self.specifiers[i].local().span.is_within(
                len,
            ) {
                return false;
            }
            i = i + 1;
        }
        true
    }
}

/// A JSX tag name of the form `Object.Property`.
pub struct JsxMemberExpression {
    pub span: Span,
    /// Where the object part ends.
    pub object_end: usize,
    /// The property name.
    pub property: Vec<u8>,
}

impl JsxMemberExpression {
    /// The span lies inside a text of `len` bytes and the object part ends
    /// inside the span.
    pub open spec fn within(&self, len: int) -> bool {
        self.span.within(len) && self.span.start <= self.object_end <= self.span.end
    }

    /// Whether the span lies inside a text of `len` bytes and the object
    /// part ends inside the span.
    pub fn is_within(&self, len: usize) -> (yes: bool)
        ensures
            yes == self.within(len as int),
    {
        self.span.is_within(len) && self.span.start <= self.object_end && self.object_end
            <= self.span.end
    }
}

/// A node of the tree that a rule can match, with the matchable nodes that
/// lie inside it.
pub enum SyntaxNode {
    Identifier(Identifier),
    ImportDeclaration { declaration: ImportDeclaration, children: Vec<SyntaxNode> },
    JsxMemberExpression { expression: JsxMemberExpression, children: Vec<SyntaxNode> },
    /// `object.property`.
    StaticMemberExpression { span: Span, children: Vec<SyntaxNode> },
}

/// Every span of the node and of the nodes inside it lies inside a text of
/// `len` bytes.
pub open spec fn node_within(node: SyntaxNode, len: int) -> bool
    decreases node, 0nat,
{
    match node {
        SyntaxNode::Identifier(identifier) => identifier.span.within(len),
        SyntaxNode::ImportDeclaration { declaration, children } => declaration.within(len)
            && forest_within(children@, len),
        SyntaxNode::JsxMemberExpression { expression, children } => expression.within(len)
            && forest_within(children@, len),
        SyntaxNode::StaticMemberExpression { span, children } => span.within(len) && forest_within(
            children@,
            len,
        ),
    }
}

/// Every span of the nodes lies inside a text of `len` bytes.
pub open spec fn forest_within(nodes: Seq<SyntaxNode>, len: int) -> bool
    decreases nodes, 1nat,
{
    nodes.len() == 0 || (forest_within(nodes.drop_last(), len) && node_within(nodes.last(), len))
}

/// Whether every span of the node and of the nodes inside it lies inside a
/// text of `len` bytes.
pub fn node_is_within(node: &SyntaxNode, len: usize) -> (yes: bool)
    ensures
        yes == node_within(*node, len as int),
    decreases *node, 0nat,
{
    match node {
        SyntaxNode::Identifier(identifier) => identifier.span.is_within(len),
        SyntaxNode::ImportDeclaration { declaration, children } => {
            declaration.is_within(len) && forest_is_within(children, len)
        },
        SyntaxNode::JsxMemberExpression { expression, children } => {
            expression.is_within(len) && forest_is_within(children, len)
        },
        SyntaxNode::StaticMemberExpression { span, children } => {
            span.is_within(len) && forest_is_within(children, len)
        },
    }
}

/// Whether every span of the nodes lies inside a text of `len` bytes.
pub fn forest_is_within(nodes: &Vec<SyntaxNode>, len: usize) -> (yes: bool)
    ensures
        yes == forest_within(nodes@, len as int),
    decreases *nodes, 1nat,
{
    let mut i: usize = 0;
    assert(nodes@.take(0) =~= Seq::<SyntaxNode>::empty());
    while i < nodes.len()
        invariant
            i <= nodes.len(),
            forest_within(nodes@.take(i as int), len as int),
        decreases nodes.len() - i,
    {
        assert(nodes@.take(i + 1).drop_last() =~= nodes@.take(i as int));
        assert(decreases_to!(*nodes => nodes[i as int]));
        if !node_is_within(&nodes[i], len) {
            proof {
                if forest_within(nodes@, len as int) {
                    lemma_forest_within_prefix(nodes@, i + 1, len as int);
                }
            }
            return false;
        }
        i = i + 1;
    }
    assert(nodes@.take(i as int) =~= nodes@);
    true
}

/// Where a forest is within bounds, each of its prefixes is.
pub proof fn lemma_forest_within_prefix(nodes: Seq<SyntaxNode>, upto: int, len: int)
    requires
        0 <= upto <= nodes.len(),
        forest_within(nodes, len),
    ensures
        forest_within(nodes.take(upto), len),
    decreases nodes.len(),
{
    if upto == nodes.len() {
        assert(nodes.take(upto) =~= nodes);
    } else {
        assert(nodes.drop_last().take(upto) =~= nodes.take(upto));
        lemma_forest_within_prefix(nodes.drop_last(), upto, len);
    }
}

/// What a parser made of the source text.
pub struct ParsedModule {
    /// The parser's error messages; empty where the text parsed.
    pub errors: Vec<Vec<u8>>,
    /// The matchable nodes of the module, in source order.
    pub body: Vec<SyntaxNode>,
}

} // verus!
