use crate::literal::{decode_literal, decode_literal_node, mismatch, BuildError, Literal};
use crate::tree::{ParseNode, Rule};
use vstd::prelude::*;

verus! {

/// The matched text and character span of a node whose structure is kept undecoded.
#[derive(Debug, PartialEq, Eq)]
pub struct Span {
    pub text: String,
    pub start: usize,
    pub end: usize,
}

/// An expression of the abstract syntax tree.
#[derive(Debug, PartialEq, Eq)]
pub enum Expression {
    Identifier(String),
    Literal(Literal),
    ProcedureCall(Operator, Vec<Operand>),
    Lambda(Span),
    Conditional(Span),
    Assignment(Span),
    DerivedExpression(Span),
    MacroUse(Span),
    MacroBlock(Span),
    Includer(Span),
}

/// The expression in operator position of a procedure call.
#[derive(Debug, PartialEq, Eq)]
pub struct Operator(pub Box<Expression>);

/// An expression in operand position of a procedure call.
#[derive(Debug, PartialEq, Eq)]
pub struct Operand(pub Box<Expression>);

/// A command or a definition at the top level of a program.
#[derive(Debug, PartialEq, Eq)]
pub enum CDef {
    Command(Expression),
    /// A definition; what it binds is not decoded yet.
    Definition,
}

/// An import set of a program.
#[derive(Debug, PartialEq, Eq)]
#[allow(inconsistent_fields)]
pub enum Import {
    Library { name: String },
    Only { imports: Vec<Box<Import>>, identifiers: Vec<String> },
    Except { imports: Vec<Box<Import>>, identifiers: Vec<String> },
    Prefix { imports: Vec<Box<Import>>, prefix: String },
    Rename { imports: Vec<Box<Import>>, identifiers: Vec<(String, String)> },
}

/// A whole program.
#[derive(Debug, PartialEq, Eq)]
pub enum AST {
    Program { imports: Vec<Import>, cdefs: Vec<CDef> },
}

pub open spec fn span_of(n: ParseNode, s: Span) -> bool {
    s.text@ == n.text@ && s.start == n.start && s.end == n.end
}

/// Kinds of expression that are kept as an undecoded span.
pub open spec fn is_opaque_form(r: Rule) -> bool {
    r == Rule::LambdaExpression || r == Rule::Conditional || r == Rule::Assignment || r
        == Rule::DerivedExpression || r == Rule::MacroUse || r == Rule::MacroBlock || r
        == Rule::Includer
}

/// `e` is the placeholder variant for the opaque form `k`, holding its span.
pub open spec fn opaque_built(k: ParseNode, e: Expression) -> bool {
    match e {
        Expression::Lambda(s) => k.rule == Rule::LambdaExpression && span_of(k, s),
        Expression::Conditional(s) => k.rule == Rule::Conditional && span_of(k, s),
        Expression::Assignment(s) => k.rule == Rule::Assignment && span_of(k, s),
        Expression::DerivedExpression(s) => k.rule == Rule::DerivedExpression && span_of(k, s),
        Expression::MacroUse(s) => k.rule == Rule::MacroUse && span_of(k, s),
        Expression::MacroBlock(s) => k.rule == Rule::MacroBlock && span_of(k, s),
        Expression::Includer(s) => k.rule == Rule::Includer && span_of(k, s),
        _ => false,
    }
}

/// The builder accepts each of the expression nodes in `s`: its shape matches the
/// dispatch table all the way down and every literal in it decodes.
pub open spec fn exprs_ok(s: Seq<ParseNode>) -> bool
    decreases s,
{
    if s.len() == 0 {
        true
    } else {
        exprs_ok(s.drop_last()) && {
            let n = s.last();
            n.rule == Rule::Expression && n.children.len() == 1 && {
                let k = n.children@[0];
                if k.rule == Rule::Identifier {
                    true
                } else if k.rule == Rule::Literal {
                    decode_literal(k) is Ok
                } else if k.rule == Rule::ProcedureCall {
                    k.children.len() >= 1 && exprs_ok(k.children@)
                } else {
                    is_opaque_form(k.rule)
                }
            }
        }
    }
}

pub open spec fn expr_ok(n: ParseNode) -> bool {
    exprs_ok(seq![n])
}

/// The expressions held by the operands of a call, in order.
pub open spec fn operand_exprs(args: Seq<Operand>) -> Seq<Expression> {
    args.map_values(|a: Operand| *a.0)
}

/// The expressions that a call node's children stand for: operator, then operands.
pub open spec fn call_exprs(op: Operator, args: Seq<Operand>) -> Seq<Expression> {
    seq![*op.0] + operand_exprs(args)
}

/// `es` is, item by item, what the builder makes of the expression nodes `s`.
pub open spec fn exprs_built(s: Seq<ParseNode>, es: Seq<Expression>) -> bool
    decreases s,
{
    s.len() == es.len() && (s.len() == 0 || (exprs_built(s.drop_last(), es.drop_last()) && {
        let n = s.last();
        let e = es.last();
        n.rule == Rule::Expression && n.children.len() == 1 && {
            let k = n.children@[0];
            if k.rule == Rule::Identifier {
                e matches Expression::Identifier(t) && t@ == k.text@
            } else if k.rule == Rule::Literal {
                e matches Expression::Literal(l) && decode_literal(k) == Ok::<_, BuildError>(l@)
            } else if k.rule == Rule::ProcedureCall {
                e matches Expression::ProcedureCall(op, args) && exprs_built(
                    k.children@,
                    call_exprs(op, args@),
                )
            } else {
                opaque_built(k, e)
            }
        }
    }))
}

/// `e` is what the builder makes of the expression node `n`.
pub open spec fn expr_built(n: ParseNode, e: Expression) -> bool {
    exprs_built(seq![n], seq![e])
}

/// The first fault, in source order, that the builder meets in the expression nodes
/// `s`, if any.
pub open spec fn exprs_fault(s: Seq<ParseNode>) -> Option<BuildError>
    decreases s,
{
    if s.len() == 0 {
        None
    } else {
        match exprs_fault(s.drop_last()) {
            Some(e) => Some(e),
            None => {
                let n = s.last();
                if n.rule != Rule::Expression || n.children.len() != 1 {
                    Some(mismatch(n))
                } else {
                    let k = n.children@[0];
                    if k.rule == Rule::Identifier || is_opaque_form(k.rule) {
                        None
                    } else if k.rule == Rule::Literal {
                        match decode_literal(k) {
                            Ok(_) => None,
                            Err(e) => Some(e),
                        }
                    } else if k.rule == Rule::ProcedureCall {
                        if k.children.len() == 0 {
                            Some(mismatch(k))
                        } else {
                            exprs_fault(k.children@)
                        }
                    } else {
                        Some(mismatch(k))
                    }
                }
            },
        }
    }
}

/// The first fault, in source order, that the builder meets in the node `n`.
pub open spec fn expr_fault(n: ParseNode) -> Option<BuildError> {
    exprs_fault(seq![n])
}

proof fn lemma_single<A>(x: A)
    ensures
        seq![x].drop_last() =~= Seq::<A>::empty(),
        seq![x].last() == x,
        seq![x].len() == 1,
{
}

proof fn lemma_exprs_ok(s: Seq<ParseNode>)
    ensures
        exprs_ok(s) <==> forall|i: int| 0 <= i < s.len() ==> expr_ok(#[trigger] s[i]),
    decreases s.len(),
{
    if s.len() > 0 {
        lemma_exprs_ok(s.drop_last());
        lemma_single(s.last());
        assert(exprs_ok(Seq::<ParseNode>::empty()));
        if exprs_ok(s) {
            assert forall|i: int| 0 <= i < s.len() implies expr_ok(#[trigger] s[i]) by {
                if i < s.len() - 1 {
                    assert(s[i] == s.drop_last()[i]);
                }
            }
        }
        if forall|i: int| 0 <= i < s.len() ==> expr_ok(#[trigger] s[i]) {
            assert forall|i: int| 0 <= i < s.drop_last().len() implies expr_ok(
                #[trigger] s.drop_last()[i],
            ) by {
                assert(s[i] == s.drop_last()[i]);
            }
            assert(expr_ok(s[s.len() - 1]));
        }
    }
}

proof fn lemma_exprs_built(s: Seq<ParseNode>, es: Seq<Expression>)
    ensures
        exprs_built(s, es) <==> (s.len() == es.len() && forall|i: int|
            0 <= i < s.len() ==> expr_built(#[trigger] s[i], es[i])),
    decreases s.len(),
{
    if s.len() > 0 && s.len() == es.len() {
        lemma_exprs_built(s.drop_last(), es.drop_last());
        lemma_single(s.last());
        lemma_single(es.last());
        assert(exprs_built(Seq::<ParseNode>::empty(), Seq::<Expression>::empty()));
        if exprs_built(s, es) {
            assert forall|i: int| 0 <= i < s.len() implies expr_built(#[trigger] s[i], es[i]) by {
                if i < s.len() - 1 {
                    assert(s[i] == s.drop_last()[i]);
                    assert(es[i] == es.drop_last()[i]);
                }
            }
        }
        if forall|i: int| 0 <= i < s.len() ==> expr_built(#[trigger] s[i], es[i]) {
            assert forall|i: int| 0 <= i < s.drop_last().len() implies expr_built(
                #[trigger] s.drop_last()[i],
                es.drop_last()[i],
            ) by {
                assert(s[i] == s.drop_last()[i]);
                assert(es[i] == es.drop_last()[i]);
            }
            assert(expr_built(s[s.len() - 1], es[s.len() - 1]));
        }
    }
}

proof fn lemma_exprs_fault_step(s: Seq<ParseNode>, i: int)
    requires
        0 <= i < s.len(),
        exprs_fault(s.take(i)) is None,
    ensures
        exprs_fault(s.take(i + 1)) == expr_fault(s[i]),
{
    lemma_single(s[i]);
    assert(s.take(i + 1).drop_last() =~= s.take(i));
    assert(exprs_fault(Seq::<ParseNode>::empty()) is None);
}

/// Once a prefix meets a fault, the whole sequence meets that fault first.
proof fn lemma_exprs_fault_extend(s: Seq<ParseNode>, m: int)
    requires
        0 <= m <= s.len(),
        exprs_fault(s.take(m)) is Some,
    ensures
        exprs_fault(s) == exprs_fault(s.take(m)),
    decreases s.len() - m,
{
    if m == s.len() {
        assert(s.take(m) =~= s);
    } else {
        assert(s.take(m + 1).drop_last() =~= s.take(m));
        lemma_exprs_fault_extend(s, m + 1);
    }
}

fn span_from(k: &ParseNode) -> (s: Span)
    ensures
        span_of(*k, s),
{
    Span { text: k.text.clone(), start: k.start, end: k.end }
}

impl Expression {
    /// Builds the expression that an `Expression` node stands for.
    pub fn from(n: &ParseNode) -> (r: Result<Expression, BuildError>)
        ensures
            r is Ok <==> expr_ok(*n),
            r matches Ok(e) ==> expr_built(*n, e),
            r matches Err(err) ==> expr_fault(*n) == Some(err),
            r is Ok ==> expr_fault(*n) is None,
        decreases n,
    {
        proof {
            lemma_single(*n);
            assert(exprs_ok(Seq::<ParseNode>::empty()));
            assert(exprs_fault(Seq::<ParseNode>::empty()) is None);
        }
        if n.rule != Rule::Expression || n.children.len() != 1 {
            return Err(BuildError::StructuralMismatch { rule: n.rule, start: n.start, end: n.end });
        }
        let k = &n.children[0];
        match k.rule {
            Rule::Identifier => {
                let e = Expression::Identifier(k.text.clone());
                proof {
                    lemma_single(e);
                    assert(exprs_built(Seq::<ParseNode>::empty(), Seq::<Expression>::empty()));
                }
                Ok(e)
            },
            Rule::Literal => match decode_literal_node(k) {
                Ok(l) => {
                    let e = Expression::Literal(l);
                    proof {
                        lemma_single(e);
                        assert(exprs_built(Seq::<ParseNode>::empty(), Seq::<Expression>::empty()));
                    }
                    Ok(e)
                },
                Err(err) => Err(err),
            },
            Rule::ProcedureCall => {
                let m = k.children.len();
                if m == 0 {
                    return Err(
                        BuildError::StructuralMismatch { rule: k.rule, start: k.start, end: k.end },
                    );
                }
                let op = match Expression::from(&k.children[0]) {
                    Ok(e) => e,
                    Err(err) => {
                        proof {
                            lemma_exprs_ok(k.children@);
                            assert(k.children@.take(0) =~= Seq::<ParseNode>::empty());
                            lemma_exprs_fault_step(k.children@, 0);
                            lemma_exprs_fault_extend(k.children@, 1);
                        }
                        return Err(err);
                    },
                };
                proof {
                    assert(k.children@.take(0) =~= Seq::<ParseNode>::empty());
                    lemma_exprs_fault_step(k.children@, 0);
                }
                let mut args: Vec<Operand> = Vec::new();
                let mut i: usize = 1;
                while i < m
                    invariant
                        n.rule == Rule::Expression,
                        n.children.len() == 1,
                        n.children@[0] == *k,
                        k.rule == Rule::ProcedureCall,
                        m == k.children.len(),
                        1 <= i <= m,
                        args.len() == i - 1,
                        expr_built(k.children@[0], op),
                        exprs_fault(k.children@.take(i as int)) is None,
                        forall|j: int| 0 <= j < i ==> #[trigger] expr_ok(k.children@[j]),
                        forall|j: int|
                            0 <= j < args.len() ==> #[trigger] expr_built(
                                k.children@[j + 1],
                                *args@[j].0,
                            ),
                    decreases m - i,
                {
                    match Expression::from(&k.children[i]) {
                        Ok(e) => {
                            proof {
                                lemma_exprs_fault_step(k.children@, i as int);
                            }
                            args.push(Operand(Box::new(e)));
                        },
                        Err(err) => {
                            proof {
                                lemma_exprs_ok(k.children@);
                                lemma_exprs_fault_step(k.children@, i as int);
                                lemma_exprs_fault_extend(k.children@, i + 1);
                                lemma_single(*n);
                                assert(exprs_fault(Seq::<ParseNode>::empty()) is None);
                            }
                            return Err(err);
                        },
                    }
                    i = i + 1;
                }
                let ghost es = call_exprs(Operator(Box::new(op)), args@);
                let e = Expression::ProcedureCall(Operator(Box::new(op)), args);
                proof {
                    assert(k.children@.take(m as int) =~= k.children@);
                    lemma_exprs_ok(k.children@);
                    assert(es.len() == k.children.len());
                    assert forall|j: int| 0 <= j < k.children.len() implies expr_built(
                        #[trigger] k.children@[j],
                        es[j],
                    ) by {
                        if j > 0 {
                            assert(es[j] == operand_exprs(args@)[j - 1]);
                            assert(es[j] == *args@[j - 1].0);
                            assert(expr_built(k.children@[(j - 1) + 1], *args@[j - 1].0));
                        } else {
                            assert(es[0] == op);
                        }
                    }
                    lemma_exprs_built(k.children@, es);
                    lemma_single(e);
                    assert(exprs_built(Seq::<ParseNode>::empty(), Seq::<Expression>::empty()));
                }
                Ok(e)
            },
            Rule::LambdaExpression => {
                let e = Expression::Lambda(span_from(k));
                proof {
                    lemma_single(e);
                    assert(exprs_built(Seq::<ParseNode>::empty(), Seq::<Expression>::empty()));
                }
                Ok(e)
            },
            Rule::Conditional => {
                let e = Expression::Conditional(span_from(k));
                proof {
                    lemma_single(e);
                    assert(exprs_built(Seq::<ParseNode>::empty(), Seq::<Expression>::empty()));
                }
                Ok(e)
            },
            Rule::Assignment => {
                let e = Expression::Assignment(span_from(k));
                proof {
                    lemma_single(e);
                    assert(exprs_built(Seq::<ParseNode>::empty(), Seq::<Expression>::empty()));
                }
                Ok(e)
            },
            Rule::DerivedExpression => {
                let e = Expression::DerivedExpression(span_from(k));
                proof {
                    lemma_single(e);
                    assert(exprs_built(Seq::<ParseNode>::empty(), Seq::<Expression>::empty()));
                }
                Ok(e)
            },
            Rule::MacroUse => {
                let e = Expression::MacroUse(span_from(k));
                proof {
                    lemma_single(e);
                    assert(exprs_built(Seq::<ParseNode>::empty(), Seq::<Expression>::empty()));
                }
                Ok(e)
            },
            Rule::MacroBlock => {
                let e = Expression::MacroBlock(span_from(k));
                proof {
                    lemma_single(e);
                    assert(exprs_built(Seq::<ParseNode>::empty(), Seq::<Expression>::empty()));
                }
                Ok(e)
            },
            Rule::Includer => {
                let e = Expression::Includer(span_from(k));
                proof {
                    lemma_single(e);
                    assert(exprs_built(Seq::<ParseNode>::empty(), Seq::<Expression>::empty()));
                }
                Ok(e)
            },
            _ => Err(BuildError::StructuralMismatch { rule: k.rule, start: k.start, end: k.end }),
        }
    }
}


/// The builder accepts the command-or-definition node `n`.
pub open spec fn cdef_ok(n: ParseNode) -> bool {
    n.rule == Rule::CommandOrDefinition && n.children.len() == 1 && {
        let k = n.children@[0];
        (k.rule == Rule::Command && k.children.len() == 1 && expr_ok(k.children@[0])) || k.rule
            == Rule::Definition
    }
}

/// `c` is what the builder makes of the command-or-definition node `n`.
pub open spec fn cdef_built(n: ParseNode, c: CDef) -> bool {
    n.rule == Rule::CommandOrDefinition && n.children.len() == 1 && {
        let k = n.children@[0];
        if k.rule == Rule::Command {
            k.children.len() == 1 && (c matches CDef::Command(e) && expr_built(k.children@[0], e))
        } else {
            k.rule == Rule::Definition && c matches CDef::Definition
        }
    }
}

/// The first fault that the builder meets in the command-or-definition node `n`.
pub open spec fn cdef_fault(n: ParseNode) -> Option<BuildError> {
    if n.rule != Rule::CommandOrDefinition || n.children.len() != 1 {
        Some(mismatch(n))
    } else {
        let k = n.children@[0];
        if k.rule == Rule::Command {
            if k.children.len() != 1 {
                Some(mismatch(k))
            } else {
                expr_fault(k.children@[0])
            }
        } else if k.rule == Rule::Definition {
            None
        } else {
            Some(mismatch(k))
        }
    }
}

impl CDef {
    /// Builds the command or definition that a `CommandOrDefinition` node stands for.
    pub fn from(n: &ParseNode) -> (r: Result<CDef, BuildError>)
        ensures
            r is Ok <==> cdef_ok(*n),
            r matches Ok(c) ==> cdef_built(*n, c),
            r matches Err(err) ==> cdef_fault(*n) == Some(err),
            r is Ok ==> cdef_fault(*n) is None,
    {
        if n.rule != Rule::CommandOrDefinition || n.children.len() != 1 {
            return Err(BuildError::StructuralMismatch { rule: n.rule, start: n.start, end: n.end });
        }
        let k = &n.children[0];
        match k.rule {
            Rule::Command => {
                if k.children.len() != 1 {
                    return Err(
                        BuildError::StructuralMismatch { rule: k.rule, start: k.start, end: k.end },
                    );
                }
                match Expression::from(&k.children[0]) {
                    Ok(e) => Ok(CDef::Command(e)),
                    Err(err) => Err(err),
                }
            },
            Rule::Definition => Ok(CDef::Definition),
            _ => Err(BuildError::StructuralMismatch { rule: k.rule, start: k.start, end: k.end }),
        }
    }
}

/// The children of a program node that hold commands and definitions, in order;
/// import declarations are passed over.
pub open spec fn cdef_nodes(s: Seq<ParseNode>) -> Seq<ParseNode> {
    s.filter(|c: ParseNode| c.rule != Rule::ImportDeclaration)
}

proof fn lemma_cdef_nodes_push(s: Seq<ParseNode>, c: ParseNode)
    ensures
        cdef_nodes(s.push(c)) == if c.rule != Rule::ImportDeclaration {
            cdef_nodes(s).push(c)
        } else {
            cdef_nodes(s)
        },
{
    s.lemma_filter_push(c, |c: ParseNode| c.rule != Rule::ImportDeclaration);
}

/// The builder accepts the program node `n`.
pub open spec fn program_ok(n: ParseNode) -> bool {
    n.rule == Rule::Program && forall|i: int|
        0 <= i < n.children.len() ==> (#[trigger] n.children@[i]).rule == Rule::ImportDeclaration
            || cdef_ok(n.children@[i])
}

/// `imports` and `cdefs` are what the builder makes of the program node `n`.
pub open spec fn program_built(n: ParseNode, imports: Seq<Import>, cdefs: Seq<CDef>) -> bool {
    &&& imports.len() == 0
    &&& cdefs.len() == cdef_nodes(n.children@).len()
    &&& forall|i: int|
        0 <= i < cdefs.len() ==> cdef_built(#[trigger] cdef_nodes(n.children@)[i], cdefs[i])
}

/// The first fault, in source order, that the builder meets in the children `s` of
/// a program node; import declarations are passed over.
pub open spec fn cdefs_fault(s: Seq<ParseNode>) -> Option<BuildError>
    decreases s.len(),
{
    if s.len() == 0 {
        None
    } else {
        match cdefs_fault(s.drop_last()) {
            Some(e) => Some(e),
            None => if s.last().rule == Rule::ImportDeclaration {
                None
            } else {
                cdef_fault(s.last())
            },
        }
    }
}

/// The first fault that the builder meets in the program node `n`.
pub open spec fn program_fault(n: ParseNode) -> Option<BuildError> {
    if n.rule != Rule::Program {
        Some(mismatch(n))
    } else {
        cdefs_fault(n.children@)
    }
}

proof fn lemma_cdefs_fault_extend(s: Seq<ParseNode>, m: int)
    requires
        0 <= m <= s.len(),
        cdefs_fault(s.take(m)) is Some,
    ensures
        cdefs_fault(s) == cdefs_fault(s.take(m)),
    decreases s.len() - m,
{
    if m == s.len() {
        assert(s.take(m) =~= s);
    } else {
        assert(s.take(m + 1).drop_last() =~= s.take(m));
        lemma_cdefs_fault_extend(s, m + 1);
    }
}

impl AST {
    /// Builds the program that a `Program` node stands for.
    pub fn from(n: &ParseNode) -> (r: Result<AST, BuildError>)
        ensures
            r is Ok <==> program_ok(*n),
            r matches Ok(AST::Program { imports, cdefs }) ==> program_built(
                *n,
                imports@,
                cdefs@,
            ),
            r matches Err(err) ==> program_fault(*n) == Some(err),
    {
        if n.rule != Rule::Program {
            return Err(BuildError::StructuralMismatch { rule: n.rule, start: n.start, end: n.end });
        }
        let imports: Vec<Import> = Vec::new();
        let mut cdefs: Vec<CDef> = Vec::new();
        let m = n.children.len();
        let mut i: usize = 0;
        while i < m
            invariant
                n.rule == Rule::Program,
                m == n.children.len(),
                0 <= i <= m,
                imports.len() == 0,
                forall|j: int|
                    0 <= j < i ==> (#[trigger] n.children@[j]).rule == Rule::ImportDeclaration
                        || cdef_ok(n.children@[j]),
                cdefs.len() == cdef_nodes(n.children@.take(i as int)).len(),
                cdefs_fault(n.children@.take(i as int)) is None,
                forall|j: int|
                    0 <= j < cdefs.len() ==> cdef_built(
                        #[trigger] cdef_nodes(n.children@.take(i as int))[j],
                        cdefs@[j],
                    ),
            decreases m - i,
        {
            let c = &n.children[i];
            let ghost before = n.children@.take(i as int);
            proof {
                assert(n.children@.take(i + 1) =~= before.push(*c));
                assert(n.children@.take(i + 1).drop_last() =~= before);
                lemma_cdef_nodes_push(before, *c);
            }
            if c.rule != Rule::ImportDeclaration {
                match CDef::from(c) {
                    Ok(d) => {
                        cdefs.push(d);
                        proof {
                            assert(cdef_nodes(n.children@.take(i + 1)) == cdef_nodes(before).push(
                                *c,
                            ));
                            assert forall|j: int| 0 <= j < cdefs.len() implies cdef_built(
                                #[trigger] cdef_nodes(n.children@.take(i + 1))[j],
                                cdefs@[j],
                            ) by {
                                if j < cdefs.len() - 1 {
                                    assert(cdef_nodes(n.children@.take(i + 1))[j] == cdef_nodes(
                                        before,
                                    )[j]);
                                }
                            }
                        }
                    },
                    Err(err) => {
                        proof {
                            assert(n.children@[i as int] == *c);
                            lemma_cdefs_fault_extend(n.children@, i + 1);
                        }
                        return Err(err);
                    },
                }
            } else {
                proof {
                    assert(cdef_nodes(n.children@.take(i + 1)) == cdef_nodes(before));
                }
            }
            i = i + 1;
        }
        proof {
            assert(n.children@.take(m as int) =~= n.children@);
        }
        Ok(AST::Program { imports, cdefs })
    }
}

} // verus!
