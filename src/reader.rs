use crate::ast::{program_built, program_fault, program_ok, AST};
use crate::literal::BuildError;
use crate::text::{chars_of, push_range};
use crate::tree::{ParseNode, Rule};
use vstd::prelude::*;

verus! {

/// Input text that the grammar rejects, with the character position where it failed.
#[derive(Clone, Copy, Debug, PartialEq, Eq, Structural)]
pub struct SyntaxError {
    pub pos: usize,
}

pub open spec fn is_space(c: char) -> bool {
    c == ' ' || c == '\t' || c == '\n' || c == '\r'
}

pub open spec fn all_space(s: Seq<char>) -> bool {
    forall|i: int| 0 <= i < s.len() ==> is_space(#[trigger] s[i])
}

/// A node whose text is the part of `input` that its span covers.
pub open spec fn spans(n: ParseNode, input: Seq<char>) -> bool {
    n.start <= n.end <= input.len() && n.text@ == input.subrange(n.start as int, n.end as int)
}

/// The shape of a parse tree: a node's kind, its character span and its children.
pub struct Tree {
    pub rule: Rule,
    pub start: int,
    pub end: int,
    pub children: Seq<Tree>,
}

pub open spec fn leaf_t(rule: Rule, a: int, b: int) -> Tree {
    Tree { rule, start: a, end: b, children: Seq::empty() }
}

pub open spec fn node_t(rule: Rule, a: int, b: int, children: Seq<Tree>) -> Tree {
    Tree { rule, start: a, end: b, children }
}

pub open spec fn err_at(p: int) -> SyntaxError {
    SyntaxError { pos: p as usize }
}

/// Each node of `ns` has the shape of the tree at the same place in `ts`, with the
/// text of `cs` that its span covers.
pub open spec fn nodes_match(ns: Seq<ParseNode>, ts: Seq<Tree>, cs: Seq<char>) -> bool
    decreases ns,
{
    ns.len() == ts.len() && (ns.len() == 0 || (nodes_match(ns.drop_last(), ts.drop_last(), cs)
        && {
        let n = ns.last();
        let t = ts.last();
        &&& n.rule == t.rule
        &&& n.start == t.start
        &&& n.end == t.end
        &&& 0 <= t.start <= t.end <= cs.len()
        &&& n.text@ == cs.subrange(t.start, t.end)
        &&& nodes_match(n.children@, t.children, cs)
    }))
}

pub open spec fn node_match(n: ParseNode, t: Tree, cs: Seq<char>) -> bool {
    nodes_match(seq![n], seq![t], cs)
}

/// The position after the whitespace and comments from `p` on; `comment` says
/// whether `p` is inside a comment.
pub open spec fn skip_s(cs: Seq<char>, p: int, comment: bool) -> int
    decreases cs.len() - p,
{
    if p < 0 || p >= cs.len() {
        p
    } else if comment {
        skip_s(cs, p + 1, cs[p] != '\n')
    } else if is_space(cs[p]) {
        skip_s(cs, p + 1, false)
    } else if cs[p] == ';' {
        skip_s(cs, p + 1, true)
    } else {
        p
    }
}

/// The first delimiter at or after `p`, or the end.
pub open spec fn token_end_s(cs: Seq<char>, p: int) -> int
    decreases cs.len() - p,
{
    if p < 0 || p >= cs.len() || is_delimiter(cs[p]) {
        p
    } else {
        token_end_s(cs, p + 1)
    }
}

/// What kind of special form a list headed by the word `w` is.
pub open spec fn form_kind_s(w: Seq<char>) -> Option<Rule> {
    if w == "lambda"@ || w == "case-lambda"@ {
        Some(Rule::LambdaExpression)
    } else if w == "if"@ {
        Some(Rule::Conditional)
    } else if w == "set!"@ {
        Some(Rule::Assignment)
    } else if w == "let-syntax"@ || w == "letrec-syntax"@ {
        Some(Rule::MacroBlock)
    } else if w == "include"@ || w == "include-ci"@ {
        Some(Rule::Includer)
    } else if w == "cond"@ || w == "case"@ || w == "and"@ || w == "or"@ || w == "when"@ || w
        == "unless"@ || w == "let"@ || w == "let*"@ || w == "letrec"@ || w == "letrec*"@ || w
        == "let-values"@ || w == "let*-values"@ || w == "begin"@ || w == "do"@ || w
        == "delay"@ || w == "delay-force"@ || w == "parameterize"@ || w == "guard"@ || w
        == "quasiquote"@ {
        Some(Rule::DerivedExpression)
    } else {
        None
    }
}

pub open spec fn is_definition_word_s(w: Seq<char>) -> bool {
    w == "define"@ || w == "define-values"@ || w == "define-record-type"@ || w
        == "define-syntax"@
}

pub open spec fn is_character_name_s(w: Seq<char>) -> bool {
    w == "alarm"@ || w == "backspace"@ || w == "delete"@ || w == "escape"@ || w == "newline"@
        || w == "null"@ || w == "return"@ || w == "space"@ || w == "tab"@
}

pub open spec fn is_bool_word_s(w: Seq<char>) -> bool {
    w == "#t"@ || w == "#f"@ || w == "#true"@ || w == "#false"@
}

/// The position after a string literal that opened at `s`, scanning from `p`.
pub open spec fn str_s(cs: Seq<char>, s: int, p: int) -> Result<int, SyntaxError>
    decreases cs.len() - p,
{
    if p < 0 || p >= cs.len() {
        Err(err_at(s))
    } else if cs[p] == '"' {
        Ok(p + 1)
    } else if cs[p] == '\\' {
        if p + 1 >= cs.len() {
            Err(err_at(s))
        } else {
            str_s(cs, s, p + 2)
        }
    } else {
        str_s(cs, s, p + 1)
    }
}

/// The position after the parenthesised form that opened at `pos`, scanning from
/// `p` at nesting `depth`; `mode` is 1 inside a comment and 2 inside a string that
/// opened at `s`.
pub open spec fn form_s(cs: Seq<char>, pos: int, p: int, depth: int, mode: int, s: int) -> Result<
    int,
    SyntaxError,
>
    decreases cs.len() - p,
{
    if p < 0 || p >= cs.len() {
        if mode == 2 {
            Err(err_at(s))
        } else {
            Err(err_at(p))
        }
    } else if mode == 1 {
        form_s(cs, pos, p + 1, depth, if cs[p] == '\n' { 0 } else { 1 }, s)
    } else if mode == 2 {
        if cs[p] == '"' {
            form_s(cs, pos, p + 1, depth, 0, s)
        } else if cs[p] == '\\' {
            if p + 1 >= cs.len() {
                Err(err_at(s))
            } else {
                form_s(cs, pos, p + 2, depth, 2, s)
            }
        } else {
            form_s(cs, pos, p + 1, depth, 2, s)
        }
    } else if cs[p] == '"' {
        form_s(cs, pos, p + 1, depth, 2, p)
    } else if cs[p] == ';' {
        form_s(cs, pos, p + 1, depth, 1, s)
    } else if cs[p] == '(' {
        if depth >= usize::MAX {
            Err(err_at(p))
        } else {
            form_s(cs, pos, p + 1, depth + 1, 0, s)
        }
    } else if cs[p] == ')' {
        if depth <= 1 {
            if p == pos {
                Err(err_at(pos))
            } else {
                Ok(p + 1)
            }
        } else {
            form_s(cs, pos, p + 1, depth - 1, 0, s)
        }
    } else {
        form_s(cs, pos, p + 1, depth, 0, s)
    }
}

pub open spec fn is_hex_s(c: char) -> bool {
    ('0' <= c && c <= '9') || ('a' <= c && c <= 'f') || ('A' <= c && c <= 'F')
}

pub open spec fn is_digit_s(c: char) -> bool {
    '0' <= c && c <= '9'
}

/// The character part of a character literal at `pos`, whose body starts at `body`
/// and whose word ends at `end`.
pub open spec fn char_part_s(cs: Seq<char>, pos: int, body: int, end: int) -> Result<Tree, SyntaxError> {
    if cs[body] == 'x' && end > body + 1 && (forall|k: int|
        body + 1 <= k < end ==> is_hex_s(#[trigger] cs[k])) {
        Ok(node_t(Rule::HexCharacter, pos, end, seq![leaf_t(Rule::HexScalarValue, body + 1, end)]))
    } else if end > body + 1 {
        if !is_character_name_s(cs.subrange(body, end)) {
            Err(err_at(pos))
        } else {
            Ok(node_t(Rule::NamedCharacter, pos, end, seq![leaf_t(Rule::CharacterName, body, end)]))
        }
    } else {
        Ok(leaf_t(Rule::AnyCharacter, pos, body + 1))
    }
}

/// The literal that starts with `#` at `pos`: a boolean or a character.
pub open spec fn read_hash_s(cs: Seq<char>, pos: int) -> Result<(Tree, int), SyntaxError> {
    if pos + 1 < cs.len() && cs[pos + 1] == '\\' {
        if pos + 2 >= cs.len() {
            Err(err_at(pos))
        } else {
            match char_part_s(cs, pos, pos + 2, token_end_s(cs, pos + 3)) {
                Ok(c) => Ok(
                    (
                        node_t(Rule::Literal, pos, c.end, seq![node_t(Rule::Character, pos, c.end, seq![c])]),
                        c.end,
                    ),
                ),
                Err(e) => Err(e),
            }
        }
    } else {
        let end = token_end_s(cs, pos + 1);
        if is_bool_word_s(cs.subrange(pos, end)) {
            Ok((node_t(Rule::Literal, pos, end, seq![leaf_t(Rule::Boolean, pos, end)]), end))
        } else {
            Err(err_at(pos))
        }
    }
}

pub open spec fn is_number_start_s(cs: Seq<char>, pos: int) -> bool {
    let c = cs[pos];
    is_digit_s(c) || ((c == '+' || c == '-' || c == '.') && pos + 1 < cs.len() && is_digit_s(
        cs[pos + 1],
    ))
}

pub open spec fn is_stop_char(c: char) -> bool {
    is_delimiter(c) || c == '\'' || c == '`' || c == ',' || c == '|'
}

/// The node that an expression at `pos` holds: a call, a special form, a literal or
/// an identifier.
pub open spec fn inner_s(cs: Seq<char>, pos: int) -> Result<Tree, SyntaxError>
    decreases cs.len() - pos, 0int,
{
    if pos < 0 || pos >= cs.len() {
        Err(err_at(pos))
    } else {
        let c = cs[pos];
        if c == '(' {
            let head = skip_s(cs, pos + 1, false);
            if head >= cs.len() || cs[head] == ')' {
                Err(err_at(head))
            } else {
                match form_kind_s(cs.subrange(head, token_end_s(cs, head))) {
                    Some(kind) => match form_s(cs, pos, pos, 0, 0, 0) {
                        Ok(e) => Ok(leaf_t(kind, pos, e)),
                        Err(x) => Err(x),
                    },
                    None => if head <= pos {
                        Err(err_at(head))
                    } else {
                        match read_items_s(cs, head) {
                            Ok((ts, p)) => Ok(node_t(Rule::ProcedureCall, pos, p, ts)),
                            Err(x) => Err(x),
                        }
                    },
                }
            }
        } else if c == '"' {
            match str_s(cs, pos, pos + 1) {
                Ok(e) => Ok(node_t(Rule::Literal, pos, e, seq![leaf_t(Rule::String, pos, e)])),
                Err(x) => Err(x),
            }
        } else if c == '#' {
            match read_hash_s(cs, pos) {
                Ok((l, _)) => Ok(l),
                Err(x) => Err(x),
            }
        } else if is_number_start_s(cs, pos) {
            let e = token_end_s(cs, pos + 1);
            Ok(node_t(Rule::Literal, pos, e, seq![leaf_t(Rule::Number, pos, e)]))
        } else if is_stop_char(c) {
            Err(err_at(pos))
        } else {
            Ok(leaf_t(Rule::Identifier, pos, token_end_s(cs, pos + 1)))
        }
    }
}

/// The expression that the reader reads at `pos`, and the position after it.
pub open spec fn read_expr_s(cs: Seq<char>, pos: int) -> Result<(Tree, int), SyntaxError>
    decreases cs.len() - pos, 1int,
{
    match inner_s(cs, pos) {
        Ok(t) => Ok((node_t(Rule::Expression, t.start, t.end, seq![t]), t.end)),
        Err(x) => Err(x),
    }
}

/// The operands of a call from `p` up to its closing parenthesis, and the position
/// after that parenthesis.
pub open spec fn read_items_s(cs: Seq<char>, p: int) -> Result<(Seq<Tree>, int), SyntaxError>
    decreases cs.len() - p, 2int,
{
    let p1 = skip_s(cs, p, false);
    if p1 >= cs.len() {
        Err(err_at(p1))
    } else if cs[p1] == ')' {
        Ok((Seq::empty(), p1 + 1))
    } else if p1 < p || p1 < 0 {
        Err(err_at(p1))
    } else {
        match read_expr_s(cs, p1) {
            Err(x) => Err(x),
            Ok((t, q)) => if q <= p1 || q > cs.len() {
                Err(err_at(q))
            } else {
                match read_items_s(cs, q) {
                    Ok((ts, e)) => Ok((seq![t] + ts, e)),
                    Err(x) => Err(x),
                }
            },
        }
    }
}

/// The command or definition that the reader reads at `pos`.
pub open spec fn read_cdef_s(cs: Seq<char>, pos: int) -> Result<(Tree, int), SyntaxError> {
    let head = skip_s(cs, pos + 1, false);
    if cs[pos] == '(' && head < cs.len() && is_definition_word_s(
        cs.subrange(head, token_end_s(cs, head)),
    ) {
        match form_s(cs, pos, pos, 0, 0, 0) {
            Ok(e) => Ok(
                (
                    node_t(Rule::CommandOrDefinition, pos, e, seq![leaf_t(Rule::Definition, pos, e)]),
                    e,
                ),
            ),
            Err(x) => Err(x),
        }
    } else {
        match read_expr_s(cs, pos) {
            Ok((t, p)) => Ok(
                (
                    node_t(
                        Rule::CommandOrDefinition,
                        t.start,
                        t.end,
                        seq![node_t(Rule::Command, t.start, t.end, seq![t])],
                    ),
                    p,
                ),
            ),
            Err(x) => Err(x),
        }
    }
}

/// The commands and definitions from `p` on, and the end of the last of them
/// (`last` when there is none).
pub open spec fn read_cdefs_s(cs: Seq<char>, p: int, last: int) -> Result<(Seq<Tree>, int), SyntaxError>
    decreases cs.len() - p,
{
    if p < 0 || p >= cs.len() {
        Ok((Seq::empty(), last))
    } else {
        match read_cdef_s(cs, p) {
            Err(x) => Err(x),
            Ok((t, q)) => {
                let p2 = skip_s(cs, q, false);
                if q <= p || p2 < q || p2 > cs.len() {
                    Err(err_at(q))
                } else {
                    match read_cdefs_s(cs, p2, q) {
                        Ok((ts, l)) => Ok((seq![t] + ts, l)),
                        Err(x) => Err(x),
                    }
                }
            },
        }
    }
}

/// The parse tree that the reader makes of a whole program text.
pub open spec fn read_tree(cs: Seq<char>) -> Result<Tree, SyntaxError> {
    let first = skip_s(cs, 0, false);
    if first >= cs.len() {
        Err(err_at(first))
    } else {
        match read_cdefs_s(cs, first, first) {
            Ok((ts, last)) => Ok(node_t(Rule::Program, first, last, ts)),
            Err(x) => Err(x),
        }
    }
}

fn is_space_exec(c: char) -> (r: bool)
    ensures
        r == is_space(c),
{
    c == ' ' || c == '\t' || c == '\n' || c == '\r'
}

pub open spec fn is_delimiter(c: char) -> bool {
    is_space(c) || c == '(' || c == ')' || c == '"' || c == ';'
}

fn is_delimiter_exec(c: char) -> (r: bool)
    ensures
        r == is_delimiter(c),
{
    is_space_exec(c) || c == '(' || c == ')' || c == '"' || c == ';'
}

fn is_digit(c: char) -> (r: bool)
    ensures
        r == is_digit_s(c),
{
    '0' <= c && c <= '9'
}

fn is_hex(c: char) -> (r: bool)
    ensures
        r == is_hex_s(c),
{
    ('0' <= c && c <= '9') || ('a' <= c && c <= 'f') || ('A' <= c && c <= 'F')
}

proof fn lemma_node_match(n: ParseNode, t: Tree, cs: Seq<char>)
    ensures
        node_match(n, t, cs) == (n.rule == t.rule && n.start == t.start && n.end == t.end && 0
            <= t.start <= t.end <= cs.len() && n.text@ == cs.subrange(t.start, t.end)
            && nodes_match(n.children@, t.children, cs)),
{
    assert(seq![n].drop_last() =~= Seq::<ParseNode>::empty());
    assert(seq![t].drop_last() =~= Seq::<Tree>::empty());
    assert(nodes_match(Seq::<ParseNode>::empty(), Seq::<Tree>::empty(), cs));
}

proof fn lemma_nodes_push(ns: Seq<ParseNode>, ts: Seq<Tree>, n: ParseNode, t: Tree, cs: Seq<char>)
    ensures
        nodes_match(ns.push(n), ts.push(t), cs) == (nodes_match(ns, ts, cs) && node_match(n, t, cs)),
{
    lemma_node_match(n, t, cs);
    assert(ns.push(n).drop_last() =~= ns);
    assert(ts.push(t).drop_last() =~= ts);
}

/// The position after the whitespace and comments that start at `pos`.
fn skip_atmosphere(cs: &Vec<char>, pos: usize) -> (r: usize)
    requires
        pos <= cs.len(),
    ensures
        pos <= r <= cs.len(),
        r == skip_s(cs@, pos as int, false),
        r < cs.len() ==> !is_space(cs@[r as int]),
{
    let mut p = pos;
    let mut comment = false;
    while p < cs.len()
        invariant
            pos <= p <= cs.len(),
            skip_s(cs@, p as int, comment) == skip_s(cs@, pos as int, false),
        decreases cs.len() - p,
    {
        let c = cs[p];
        if comment {
            comment = c != '\n';
            p = p + 1;
        } else if is_space_exec(c) {
            p = p + 1;
        } else if c == ';' {
            comment = true;
            p = p + 1;
        } else {
            return p;
        }
    }
    p
}

/// The first delimiter at or after `pos`, or the end.
fn token_end(cs: &Vec<char>, pos: usize) -> (r: usize)
    requires
        pos <= cs.len(),
    ensures
        pos <= r <= cs.len(),
        r == token_end_s(cs@, pos as int),
{
    let mut p = pos;
    while p < cs.len() && !is_delimiter_exec(cs[p])
        invariant
            pos <= p <= cs.len(),
            token_end_s(cs@, p as int) == token_end_s(cs@, pos as int),
        decreases cs.len() - p,
    {
        p = p + 1;
    }
    p
}

/// Whether the characters from `from` up to `to` spell `w`.
fn spells(cs: &Vec<char>, from: usize, to: usize, w: &str) -> (r: bool)
    requires
        from <= to <= cs.len(),
    ensures
        r == (cs@.subrange(from as int, to as int) == w@),
{
    let n = w.unicode_len();
    if to - from != n {
        return false;
    }
    let mut i: usize = 0;
    while i < n
        invariant
            n == w@.len(),
            to - from == n,
            from <= to <= cs.len(),
            0 <= i <= n,
            cs@.subrange(from as int, from + i) == w@.take(i as int),
        decreases n - i,
    {
        if cs[from + i] != w.get_char(i) {
            assert(cs@.subrange(from as int, to as int)[i as int] != w@[i as int]);
            return false;
        }
        assert(cs@.subrange(from as int, from + i + 1) =~= w@.take(i + 1));
        i = i + 1;
    }
    assert(w@.take(n as int) =~= w@);
    true
}

fn slice_text(cs: &Vec<char>, from: usize, to: usize) -> (r: String)
    requires
        from <= to <= cs.len(),
    ensures
        r@ == cs@.subrange(from as int, to as int),
{
    let mut out = String::new();
    push_range(&mut out, cs, from, to);
    proof {
        assert(out@ =~= cs@.subrange(from as int, to as int));
    }
    out
}

fn node(
    cs: &Vec<char>,
    rule: Rule,
    from: usize,
    to: usize,
    children: Vec<ParseNode>,
    Ghost(ts): Ghost<Seq<Tree>>,
) -> (r: ParseNode)
    requires
        from <= to <= cs.len(),
        nodes_match(children@, ts, cs@),
    ensures
        node_match(r, node_t(rule, from as int, to as int, ts), cs@),
        r.rule == rule,
        r.start == from,
        r.end == to,
        spans(r, cs@),
{
    let r = ParseNode { rule, text: slice_text(cs, from, to), start: from, end: to, children };
    proof {
        lemma_node_match(r, node_t(rule, from as int, to as int, ts), cs@);
    }
    r
}

fn leaf(cs: &Vec<char>, rule: Rule, from: usize, to: usize) -> (r: ParseNode)
    requires
        from <= to <= cs.len(),
    ensures
        node_match(r, leaf_t(rule, from as int, to as int), cs@),
        r.rule == rule,
        r.start == from,
        r.end == to,
        spans(r, cs@),
{
    proof {
        assert(nodes_match(Seq::<ParseNode>::empty(), Seq::<Tree>::empty(), cs@));
    }
    let v: Vec<ParseNode> = Vec::new();
    proof {
        assert(v@ =~= Seq::<ParseNode>::empty());
        assert(leaf_t(rule, from as int, to as int) == node_t(rule, from as int, to as int, Seq::empty()));
    }
    node(cs, rule, from, to, v, Ghost(Seq::empty()))
}

fn wrap(cs: &Vec<char>, rule: Rule, inner: ParseNode, Ghost(t): Ghost<Tree>) -> (r: ParseNode)
    requires
        node_match(inner, t, cs@),
    ensures
        node_match(r, node_t(rule, t.start, t.end, seq![t]), cs@),
        r.rule == rule,
        r.start == inner.start,
        r.end == inner.end,
        spans(r, cs@),
{
    proof {
        lemma_node_match(inner, t, cs@);
    }
    let from = inner.start;
    let to = inner.end;
    let mut v: Vec<ParseNode> = Vec::new();
    v.push(inner);
    proof {
        lemma_nodes_push(Seq::<ParseNode>::empty(), Seq::<Tree>::empty(), inner, t, cs@);
        assert(nodes_match(Seq::<ParseNode>::empty(), Seq::<Tree>::empty(), cs@));
        assert(v@ =~= Seq::<ParseNode>::empty().push(inner));
        assert(seq![t] =~= Seq::<Tree>::empty().push(t));
    }
    let ghost one = seq![t];
    node(cs, rule, from, to, v, Ghost(one))
}

/// What kind of special form a list headed by the word from `from` up to `to` is.
fn form_kind(cs: &Vec<char>, from: usize, to: usize) -> (r: Option<Rule>)
    requires
        from <= to <= cs.len(),
    ensures
        r == form_kind_s(cs@.subrange(from as int, to as int)),
{
    if spells(cs, from, to, "lambda") || spells(cs, from, to, "case-lambda") {
        Some(Rule::LambdaExpression)
    } else if spells(cs, from, to, "if") {
        Some(Rule::Conditional)
    } else if spells(cs, from, to, "set!") {
        Some(Rule::Assignment)
    } else if spells(cs, from, to, "let-syntax") || spells(cs, from, to, "letrec-syntax") {
        Some(Rule::MacroBlock)
    } else if spells(cs, from, to, "include") || spells(cs, from, to, "include-ci") {
        Some(Rule::Includer)
    } else if spells(cs, from, to, "cond") || spells(cs, from, to, "case") || spells(
        cs,
        from,
        to,
        "and",
    ) || spells(cs, from, to, "or") || spells(cs, from, to, "when") || spells(
        cs,
        from,
        to,
        "unless",
    ) || spells(cs, from, to, "let") || spells(cs, from, to, "let*") || spells(
        cs,
        from,
        to,
        "letrec",
    ) || spells(cs, from, to, "letrec*") || spells(cs, from, to, "let-values") || spells(
        cs,
        from,
        to,
        "let*-values",
    ) || spells(cs, from, to, "begin") || spells(cs, from, to, "do") || spells(
        cs,
        from,
        to,
        "delay",
    ) || spells(cs, from, to, "delay-force") || spells(cs, from, to, "parameterize") || spells(
        cs,
        from,
        to,
        "guard",
    ) || spells(cs, from, to, "quasiquote") {
        Some(Rule::DerivedExpression)
    } else {
        None
    }
}

fn is_definition_word(cs: &Vec<char>, from: usize, to: usize) -> (r: bool)
    requires
        from <= to <= cs.len(),
    ensures
        r == is_definition_word_s(cs@.subrange(from as int, to as int)),
{
    spells(cs, from, to, "define") || spells(cs, from, to, "define-values") || spells(
        cs,
        from,
        to,
        "define-record-type",
    ) || spells(cs, from, to, "define-syntax")
}

/// The names of the characters that a character literal may spell out.
fn is_character_name(cs: &Vec<char>, from: usize, to: usize) -> (r: bool)
    requires
        from <= to <= cs.len(),
    ensures
        r == is_character_name_s(cs@.subrange(from as int, to as int)),
{
    spells(cs, from, to, "alarm") || spells(cs, from, to, "backspace") || spells(
        cs,
        from,
        to,
        "delete",
    ) || spells(cs, from, to, "escape") || spells(cs, from, to, "newline") || spells(
        cs,
        from,
        to,
        "null",
    ) || spells(cs, from, to, "return") || spells(cs, from, to, "space") || spells(
        cs,
        from,
        to,
        "tab",
    )
}

/// The position after the string literal that opens at `pos`.
fn string_end(cs: &Vec<char>, pos: usize) -> (r: Result<usize, SyntaxError>)
    requires
        pos < cs.len(),
    ensures
        r matches Ok(q) ==> str_s(cs@, pos as int, pos + 1) == Ok::<int, SyntaxError>(q as int)
            && pos < q <= cs.len(),
        r matches Err(e) ==> str_s(cs@, pos as int, pos + 1) == Err::<int, SyntaxError>(e),
{
    let mut p = pos + 1;
    while p < cs.len()
        invariant
            pos < p <= cs.len(),
            str_s(cs@, pos as int, p as int) == str_s(cs@, pos as int, pos + 1),
        decreases cs.len() - p,
    {
        let c = cs[p];
        if c == '"' {
            return Ok(p + 1);
        } else if c == '\\' {
            if p + 1 >= cs.len() {
                return Err(SyntaxError { pos });
            }
            p = p + 2;
        } else {
            p = p + 1;
        }
    }
    Err(SyntaxError { pos })
}

/// The position after the parenthesised form that opens at `pos`.
fn form_end(cs: &Vec<char>, pos: usize) -> (r: Result<usize, SyntaxError>)
    requires
        pos < cs.len(),
    ensures
        r matches Ok(q) ==> form_s(cs@, pos as int, pos as int, 0, 0, 0) == Ok::<int, SyntaxError>(
            q as int,
        ) && pos < q <= cs.len(),
        r matches Err(e) ==> form_s(cs@, pos as int, pos as int, 0, 0, 0) == Err::<int, SyntaxError>(
            e,
        ),
{
    let mut p = pos;
    let mut depth: usize = 0;
    let mut mode: u8 = 0;
    let mut s: usize = 0;
    while p < cs.len()
        invariant
            pos <= p <= cs.len(),
            mode <= 2,
            form_s(cs@, pos as int, p as int, depth as int, mode as int, s as int) == form_s(
                cs@,
                pos as int,
                pos as int,
                0,
                0,
                0,
            ),
        decreases cs.len() - p,
    {
        let c = cs[p];
        if mode == 1 {
            mode = if c == '\n' {
                0
            } else {
                1
            };
            p = p + 1;
        } else if mode == 2 {
            if c == '"' {
                mode = 0;
                p = p + 1;
            } else if c == '\\' {
                if p + 1 >= cs.len() {
                    return Err(SyntaxError { pos: s });
                }
                p = p + 2;
            } else {
                p = p + 1;
            }
        } else if c == '"' {
            mode = 2;
            s = p;
            p = p + 1;
        } else if c == ';' {
            mode = 1;
            p = p + 1;
        } else if c == '(' {
            if depth == usize::MAX {
                return Err(SyntaxError { pos: p });
            }
            depth = depth + 1;
            p = p + 1;
        } else if c == ')' {
            if depth <= 1 {
                if p == pos {
                    return Err(SyntaxError { pos });
                }
                return Ok(p + 1);
            }
            depth = depth - 1;
            p = p + 1;
        } else {
            p = p + 1;
        }
    }
    if mode == 2 {
        Err(SyntaxError { pos: s })
    } else {
        Err(SyntaxError { pos: p })
    }
}

/// Reads the literal that starts with `#` at `pos`: a boolean or a character.
fn read_hash(cs: &Vec<char>, pos: usize) -> (r: Result<(ParseNode, usize), SyntaxError>)
    requires
        pos < cs.len(),
    ensures
        match read_hash_s(cs@, pos as int) {
            Ok((t, q)) => r matches Ok((n, p)) && p == q && node_match(n, t, cs@) && t.start == pos
                && pos < q <= cs.len(),
            Err(e) => r == Err::<(ParseNode, usize), SyntaxError>(e),
        },
{
    let n = cs.len();
    if pos + 1 < n && cs[pos + 1] == '\\' {
        if pos + 2 >= n {
            return Err(SyntaxError { pos });
        }
        let body = pos + 2;
        let end = token_end(cs, body + 1);
        let mut hex = cs[body] == 'x' && end > body + 1;
        if hex {
            let mut k = body + 1;
            while k < end
                invariant
                    body + 1 <= k <= end,
                    end <= cs.len(),
                    hex == forall|j: int| body + 1 <= j < k ==> is_hex_s(#[trigger] cs@[j]),
                decreases end - k,
            {
                if !is_hex(cs[k]) {
                    hex = false;
                }
                k = k + 1;
            }
        }
        let ghost tc = char_part_s(cs@, pos as int, body as int, end as int);
        let ch = if hex {
            let digits = leaf(cs, Rule::HexScalarValue, body + 1, end);
            let mut inner: Vec<ParseNode> = Vec::new();
            inner.push(digits);
            proof {
                lemma_nodes_push(Seq::<ParseNode>::empty(), Seq::<Tree>::empty(), digits, leaf_t(Rule::HexScalarValue, body + 1, end as int), cs@);
                assert(nodes_match(Seq::<ParseNode>::empty(), Seq::<Tree>::empty(), cs@));
                assert(inner@ =~= Seq::<ParseNode>::empty().push(digits));
                assert(seq![leaf_t(Rule::HexScalarValue, body + 1, end as int)] =~= Seq::<Tree>::empty().push(leaf_t(Rule::HexScalarValue, body + 1, end as int)));
            }
            let ghost one = seq![leaf_t(Rule::HexScalarValue, body + 1, end as int)];
            node(cs, Rule::HexCharacter, pos, end, inner, Ghost(one))
        } else if end > body + 1 {
            if !is_character_name(cs, body, end) {
                return Err(SyntaxError { pos });
            }
            let name = leaf(cs, Rule::CharacterName, body, end);
            let mut inner: Vec<ParseNode> = Vec::new();
            inner.push(name);
            proof {
                lemma_nodes_push(Seq::<ParseNode>::empty(), Seq::<Tree>::empty(), name, leaf_t(Rule::CharacterName, body as int, end as int), cs@);
                assert(nodes_match(Seq::<ParseNode>::empty(), Seq::<Tree>::empty(), cs@));
                assert(inner@ =~= Seq::<ParseNode>::empty().push(name));
                assert(seq![leaf_t(Rule::CharacterName, body as int, end as int)] =~= Seq::<Tree>::empty().push(leaf_t(Rule::CharacterName, body as int, end as int)));
            }
            let ghost one = seq![leaf_t(Rule::CharacterName, body as int, end as int)];
            node(cs, Rule::NamedCharacter, pos, end, inner, Ghost(one))
        } else {
            leaf(cs, Rule::AnyCharacter, pos, body + 1)
        };
        proof {
            assert(tc is Ok);
            lemma_node_match(ch, tc->Ok_0, cs@);
        }
        let stop = ch.end;
        let character = wrap(cs, Rule::Character, ch, Ghost(tc->Ok_0));
        let ghost tchar = node_t(Rule::Character, pos as int, stop as int, seq![tc->Ok_0]);
        let lit = wrap(cs, Rule::Literal, character, Ghost(tchar));
        return Ok((lit, stop));
    }
    let end = token_end(cs, pos + 1);
    if spells(cs, pos, end, "#t") || spells(cs, pos, end, "#f") || spells(cs, pos, end, "#true")
        || spells(cs, pos, end, "#false") {
        let b = leaf(cs, Rule::Boolean, pos, end);
        proof {
            if end == pos {
                assert(cs@.subrange(pos as int, end as int).len() == 0);
                reveal_strlit("#t");
                reveal_strlit("#f");
                reveal_strlit("#true");
                reveal_strlit("#false");
            }
        }
        let lit = wrap(cs, Rule::Literal, b, Ghost(leaf_t(Rule::Boolean, pos as int, end as int)));
        Ok((lit, end))
    } else {
        Err(SyntaxError { pos })
    }
}

fn is_number_start(cs: &Vec<char>, pos: usize) -> (r: bool)
    requires
        pos < cs.len(),
    ensures
        r == is_number_start_s(cs@, pos as int),
{
    let c = cs[pos];
    is_digit(c) || ((c == '+' || c == '-' || c == '.') && pos + 1 < cs.len() && is_digit(
        cs[pos + 1],
    ))
}

/// Reads what an expression at `pos` holds.
fn read_inner(cs: &Vec<char>, pos: usize) -> (r: Result<ParseNode, SyntaxError>)
    requires
        pos < cs.len(),
    ensures
        match inner_s(cs@, pos as int) {
            Ok(t) => r matches Ok(n) && node_match(n, t, cs@) && t.start == pos && pos < t.end
                <= cs.len(),
            Err(e) => r == Err::<ParseNode, SyntaxError>(e),
        },
    decreases cs.len() - pos, 0int,
{
    let c = cs[pos];
    if c == '(' {
        let head = skip_atmosphere(cs, pos + 1);
        if head >= cs.len() || cs[head] == ')' {
            return Err(SyntaxError { pos: head });
        }
        let word_end = token_end(cs, head);
        match form_kind(cs, head, word_end) {
            Some(kind) => match form_end(cs, pos) {
                Ok(e) => Ok(leaf(cs, kind, pos, e)),
                Err(e) => Err(e),
            },
            None => {
                let mut items: Vec<ParseNode> = Vec::new();
                let ghost mut ts: Seq<Tree> = Seq::empty();
                let mut p = head;
                proof {
                    assert(head > pos);
                    assert(ts + Seq::<Tree>::empty() =~= ts);
                    assert(nodes_match(items@, ts, cs@)) by {
                        assert(items@ =~= Seq::<ParseNode>::empty());
                    }
                }
                loop
                    invariant_except_break
                        pos < head <= p <= cs.len(),
                        nodes_match(items@, ts, cs@),
                        read_items_s(cs@, head as int) == match read_items_s(cs@, p as int) {
                            Ok((rest, e)) => Ok((ts + rest, e)),
                            Err(x) => Err::<(Seq<Tree>, int), SyntaxError>(x),
                        },
                    invariant
                        inner_s(cs@, pos as int) == match read_items_s(cs@, head as int) {
                            Ok((ts1, q)) => Ok(node_t(Rule::ProcedureCall, pos as int, q, ts1)),
                            Err(x) => Err::<Tree, SyntaxError>(x),
                        },
                    ensures
                        pos < p <= cs.len(),
                        nodes_match(items@, ts, cs@),
                        read_items_s(cs@, head as int) == Ok::<(Seq<Tree>, int), SyntaxError>(
                            (ts, p as int),
                        ),
                    decreases cs.len() - p,
                {
                    let p1 = skip_atmosphere(cs, p);
                    if p1 >= cs.len() {
                        return Err(SyntaxError { pos: p1 });
                    }
                    if cs[p1] == ')' {
                        p = p1 + 1;
                        proof {
                            assert(ts + Seq::<Tree>::empty() =~= ts);
                        }
                        break ;
                    }
                    match read_expression(cs, p1) {
                        Ok((e, q)) => {
                            let ghost t = read_expr_s(cs@, p1 as int)->Ok_0.0;
                            proof {
                                lemma_nodes_push(items@, ts, e, t, cs@);
                                let rest = read_items_s(cs@, q as int);
                                if let Ok((r2, e2)) = rest {
                                    assert(ts + (seq![t] + r2) =~= ts.push(t) + r2);
                                }
                            }
                            items.push(e);
                            proof {
                                ts = ts.push(t);
                            }
                            p = q;
                        },
                        Err(err) => {
                            return Err(err);
                        },
                    }
                }
                let r = node(cs, Rule::ProcedureCall, pos, p, items, Ghost(ts));
                Ok(r)
            },
        }
    } else if c == '"' {
        let end = match string_end(cs, pos) {
            Ok(e) => e,
            Err(e) => {
                return Err(e);
            },
        };
        let s = leaf(cs, Rule::String, pos, end);
        Ok(wrap(cs, Rule::Literal, s, Ghost(leaf_t(Rule::String, pos as int, end as int))))
    } else if c == '#' {
        match read_hash(cs, pos) {
            Ok((lit, _)) => Ok(lit),
            Err(e) => Err(e),
        }
    } else if is_number_start(cs, pos) {
        let end = token_end(cs, pos + 1);
        let num = leaf(cs, Rule::Number, pos, end);
        Ok(wrap(cs, Rule::Literal, num, Ghost(leaf_t(Rule::Number, pos as int, end as int))))
    } else if is_delimiter_exec(c) || c == '\'' || c == '`' || c == ',' || c == '|' {
        Err(SyntaxError { pos })
    } else {
        let end = token_end(cs, pos + 1);
        Ok(leaf(cs, Rule::Identifier, pos, end))
    }
}

/// Reads one expression starting at `pos`.
fn read_expression(cs: &Vec<char>, pos: usize) -> (r: Result<(ParseNode, usize), SyntaxError>)
    requires
        pos < cs.len(),
    ensures
        match read_expr_s(cs@, pos as int) {
            Ok((t, q)) => r matches Ok((n, p)) && p == q && node_match(n, t, cs@) && t.start == pos
                && pos < q <= cs.len(),
            Err(e) => r == Err::<(ParseNode, usize), SyntaxError>(e),
        },
    decreases cs.len() - pos, 1int,
{
    match read_inner(cs, pos) {
        Ok(inner) => {
            let ghost t = inner_s(cs@, pos as int)->Ok_0;
            proof {
                lemma_node_match(inner, t, cs@);
            }
            let stop = inner.end;
            Ok((wrap(cs, Rule::Expression, inner, Ghost(t)), stop))
        },
        Err(e) => Err(e),
    }
}

/// Reads one command or definition starting at `pos`.
fn read_cdef(cs: &Vec<char>, pos: usize) -> (r: Result<(ParseNode, usize), SyntaxError>)
    requires
        pos < cs.len(),
    ensures
        match read_cdef_s(cs@, pos as int) {
            Ok((t, q)) => r matches Ok((n, p)) && p == q && node_match(n, t, cs@) && pos < q
                <= cs.len(),
            Err(e) => r == Err::<(ParseNode, usize), SyntaxError>(e),
        },
{
    let head = skip_atmosphere(cs, pos + 1);
    if cs[pos] == '(' && head < cs.len() {
        let word_end = token_end(cs, head);
        if is_definition_word(cs, head, word_end) {
            let end = match form_end(cs, pos) {
                Ok(e) => e,
                Err(e) => {
                    return Err(e);
                },
            };
            let d = leaf(cs, Rule::Definition, pos, end);
            return Ok(
                (
                    wrap(cs, Rule::CommandOrDefinition, d, Ghost(leaf_t(Rule::Definition, pos as int, end as int))),
                    end,
                ),
            );
        }
    }
    match read_expression(cs, pos) {
        Ok((e, p)) => {
            let ghost t = read_expr_s(cs@, pos as int)->Ok_0.0;
            proof {
                lemma_node_match(e, t, cs@);
            }
            let c = wrap(cs, Rule::Command, e, Ghost(t));
            let ghost tcmd = node_t(Rule::Command, t.start, t.end, seq![t]);
            Ok((wrap(cs, Rule::CommandOrDefinition, c, Ghost(tcmd)), p))
        },
        Err(e) => Err(e),
    }
}

proof fn lemma_skip_space(cs: Seq<char>, p: int)
    requires
        0 <= p <= cs.len(),
        all_space(cs),
    ensures
        skip_s(cs, p, false) == cs.len(),
    decreases cs.len() - p,
{
    if p < cs.len() {
        lemma_skip_space(cs, p + 1);
    }
}

/// Reads a whole program: one or more commands and definitions.
fn read_program(cs: &Vec<char>) -> (r: Result<ParseNode, SyntaxError>)
    ensures
        match read_tree(cs@) {
            Ok(t) => r matches Ok(n) && node_match(n, t, cs@),
            Err(e) => r == Err::<ParseNode, SyntaxError>(e),
        },
{
    let first = skip_atmosphere(cs, 0);
    if first >= cs.len() {
        return Err(SyntaxError { pos: first });
    }
    let mut items: Vec<ParseNode> = Vec::new();
    let ghost mut ts: Seq<Tree> = Seq::empty();
    let mut p = first;
    let mut last = first;
    proof {
        assert(ts + Seq::<Tree>::empty() =~= ts);
        assert(nodes_match(items@, ts, cs@)) by {
            assert(items@ =~= Seq::<ParseNode>::empty());
        }
    }
    while p < cs.len()
        invariant
            first <= last <= p <= cs.len(),
            first < cs.len(),
            nodes_match(items@, ts, cs@),
            read_tree(cs@) == match read_cdefs_s(cs@, first as int, first as int) {
                Ok((ts1, l)) => Ok(node_t(Rule::Program, first as int, l, ts1)),
                Err(x) => Err::<Tree, SyntaxError>(x),
            },
            read_cdefs_s(cs@, first as int, first as int) == match read_cdefs_s(
                cs@,
                p as int,
                last as int,
            ) {
                Ok((rest, l)) => Ok((ts + rest, l)),
                Err(x) => Err::<(Seq<Tree>, int), SyntaxError>(x),
            },
        decreases cs.len() - p,
    {
        match read_cdef(cs, p) {
            Ok((d, q)) => {
                let ghost t = read_cdef_s(cs@, p as int)->Ok_0.0;
                let p2 = skip_atmosphere(cs, q);
                proof {
                    lemma_nodes_push(items@, ts, d, t, cs@);
                    let rest = read_cdefs_s(cs@, p2 as int, q as int);
                    if let Ok((r2, l2)) = rest {
                        assert(ts + (seq![t] + r2) =~= ts.push(t) + r2);
                    }
                }
                items.push(d);
                proof {
                    ts = ts.push(t);
                }
                last = q;
                p = p2;
            },
            Err(e) => {
                return Err(e);
            },
        }
    }
    proof {
        assert(ts + Seq::<Tree>::empty() =~= ts);
    }
    Ok(node(cs, Rule::Program, first, last, items, Ghost(ts)))
}

/// The reader of the language's concrete syntax.
pub struct R7RSParser;

impl R7RSParser {
    /// Reads `input` as a whole `Program` (the tree `read_tree` describes), or as a
    /// single `Expression` with nothing but whitespace and comments around it; other
    /// rules cannot start a read.
    pub fn parse(rule: Rule, input: &str) -> (r: Result<ParseNode, SyntaxError>)
        ensures
            r matches Ok(n) ==> n.rule == rule && spans(n, input@),
            rule == Rule::Program ==> match read_tree(input@) {
                Ok(t) => r matches Ok(n) && node_match(n, t, input@),
                Err(e) => r == Err::<ParseNode, SyntaxError>(e),
            },
            rule == Rule::Expression ==> (r matches Ok(n) ==> match read_expr_s(input@, n.start as int) {
                Ok((t, _)) => node_match(n, t, input@),
                Err(_) => false,
            }),
            rule != Rule::Program && rule != Rule::Expression ==> r is Err,
            all_space(input@) ==> r is Err,
    {
        let cs = chars_of(input);
        proof {
            if all_space(input@) {
                lemma_skip_space(cs@, 0);
            }
        }
        if rule == Rule::Program {
            let r = read_program(&cs);
            proof {
                if r is Ok {
                    let t = read_tree(cs@)->Ok_0;
                    lemma_node_match(r->Ok_0, t, cs@);
                }
            }
            r
        } else if rule == Rule::Expression {
            let first = skip_atmosphere(&cs, 0);
            if first >= cs.len() {
                return Err(SyntaxError { pos: first });
            }
            match read_expression(&cs, first) {
                Ok((e, p)) => {
                    proof {
                        let t = read_expr_s(cs@, first as int)->Ok_0.0;
                        lemma_node_match(e, t, cs@);
                    }
                    let rest = skip_atmosphere(&cs, p);
                    if rest < cs.len() {
                        Err(SyntaxError { pos: rest })
                    } else {
                        Ok(e)
                    }
                },
                Err(err) => Err(err),
            }
        } else {
            Err(SyntaxError { pos: 0 })
        }
    }
}

/// Reads `input` as a program and builds its abstract syntax tree.
pub fn read(input: &str) -> (r: Result<AST, ReadError>)
    ensures
        read_tree(input@) matches Err(e) ==> r == Err::<AST, ReadError>(ReadError::Syntax(e)),
        read_tree(input@) matches Ok(t) ==> exists|n: ParseNode|
            {
                &&& node_match(n, t, input@)
                &&& (r is Ok <==> program_ok(n))
                &&& (r matches Ok(AST::Program { imports, cdefs }) ==> program_built(
                    n,
                    imports@,
                    cdefs@,
                ))
                &&& (r matches Err(ReadError::Build(e)) ==> program_fault(n) == Some(e))
            },
{
    match R7RSParser::parse(Rule::Program, input) {
        Ok(n) => match AST::from(&n) {
            Ok(ast) => Ok(ast),
            Err(e) => Err(ReadError::Build(e)),
        },
        Err(e) => Err(ReadError::Syntax(e)),
    }
}

/// Why a text could not be read as a program.
#[derive(Clone, Copy, Debug, PartialEq, Eq, Structural)]
pub enum ReadError {
    /// The grammar rejects the text.
    Syntax(SyntaxError),
    /// The parse tree does not fit the builder's dispatch table.
    Build(BuildError),
}

} // verus!
