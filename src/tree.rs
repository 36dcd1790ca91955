use vstd::prelude::*;

verus! {

/// The kinds of node in a concrete parse tree of the reader.
#[derive(Clone, Copy, Debug, PartialEq, Eq, Structural, Hash, PartialOrd, Ord)]
pub enum Rule {
    Program,
    CommandOrDefinition,
    Command,
    Definition,
    Expression,
    Identifier,
    Literal,
    Number,
    String,
    Boolean,
    Character,
    AnyCharacter,
    NamedCharacter,
    CharacterName,
    HexCharacter,
    HexScalarValue,
    ProcedureCall,
    LambdaExpression,
    Conditional,
    Assignment,
    DerivedExpression,
    MacroUse,
    MacroBlock,
    Includer,
    ImportDeclaration,
}

/// One node of a concrete parse tree: its kind, the text it matched, the
/// character span of that text in the input, and its children in order.
#[derive(Debug)]
pub struct ParseNode {
    pub rule: Rule,
    pub text: String,
    pub start: usize,
    pub end: usize,
    pub children: Vec<ParseNode>,
}

impl ParseNode {
    pub fn as_rule(&self) -> (r: Rule)
        ensures
            r == self.rule,
    {
        self.rule
    }

    pub fn as_str(&self) -> (r: &str)
        ensures
            r@ == self.text@,
    {
        self.text.as_str()
    }
}

} // verus!
