use crate::tree::{ParseNode, Rule};
use vstd::prelude::*;

verus! {

/// A literal value decoded from the source text.
#[derive(Debug, PartialEq, Eq)]
pub enum Literal {
    /// The matched text, quote characters included.
    String(String),
    Bool(bool),
    Char(char),
    /// The matched text of a numeric literal, left undecoded.
    Number(String),
}

/// The mathematical content of a `Literal`; a character is its scalar value.
pub enum LiteralView {
    String(Seq<char>),
    Bool(bool),
    Char(nat),
    Number(Seq<char>),
}

impl View for Literal {
    type V = LiteralView;

    open spec fn view(&self) -> LiteralView {
        match self {
            Literal::String(s) => LiteralView::String(s@),
            Literal::Bool(b) => LiteralView::Bool(*b),
            Literal::Char(c) => LiteralView::Char(*c as u32 as nat),
            Literal::Number(s) => LiteralView::Number(s@),
        }
    }
}

/// Why a literal could not be decoded.
#[derive(Clone, Copy, Debug, PartialEq, Eq, Structural)]
pub enum LiteralFault {
    /// The digits of a hex character are empty or hold a non-hex character.
    BadHexDigits,
    /// The hex digits denote a surrogate or a value above the largest scalar value.
    NotAScalarValue,
    /// A character name outside the reserved names.
    UnknownName,
}

/// A failure of the AST builder, with the character span of the node at fault.
#[derive(Clone, Copy, Debug, PartialEq, Eq, Structural)]
pub enum BuildError {
    /// A node whose kind or shape the builder does not expect at its place.
    StructuralMismatch { rule: Rule, start: usize, end: usize },
    /// A literal node that the literal decoder rejects.
    LiteralDecode { fault: LiteralFault, start: usize, end: usize },
}

pub open spec fn mismatch(n: ParseNode) -> BuildError {
    BuildError::StructuralMismatch { rule: n.rule, start: n.start, end: n.end }
}

pub open spec fn decode_fault(f: LiteralFault, n: ParseNode) -> BuildError {
    BuildError::LiteralDecode { fault: f, start: n.start, end: n.end }
}

/// Unicode scalar values: code points outside the surrogate range.
pub open spec fn is_scalar(v: nat) -> bool {
    v <= 0xD7FF || (0xE000 <= v && v <= 0x10FFFF)
}

pub open spec fn is_hex_digit(c: char) -> bool {
    ('0' <= c && c <= '9') || ('a' <= c && c <= 'f') || ('A' <= c && c <= 'F')
}

pub open spec fn hex_digit_value(c: char) -> nat {
    if '0' <= c && c <= '9' {
        (c as u32 - '0' as u32) as nat
    } else if 'a' <= c && c <= 'f' {
        (c as u32 - 'a' as u32 + 10) as nat
    } else {
        (c as u32 - 'A' as u32 + 10) as nat
    }
}

pub open spec fn all_hex_digits(s: Seq<char>) -> bool {
    forall|i: int| 0 <= i < s.len() ==> is_hex_digit(#[trigger] s[i])
}

/// The unsigned integer that a sequence of hex digits denotes, most significant first.
pub open spec fn hex_value(s: Seq<char>) -> nat
    decreases s.len(),
{
    if s.len() == 0 {
        0
    } else {
        hex_value(s.drop_last()) * 16 + hex_digit_value(s.last())
    }
}

/// The scalar value that the digits of a hex character denote, or why they denote none.
pub open spec fn decode_hex(s: Seq<char>) -> Result<nat, LiteralFault> {
    if s.len() == 0 || !all_hex_digits(s) {
        Err(LiteralFault::BadHexDigits)
    } else if !is_scalar(hex_value(s)) {
        Err(LiteralFault::NotAScalarValue)
    } else {
        Ok(hex_value(s))
    }
}

/// The reserved character names and their scalar values.
pub open spec fn named_scalar(name: Seq<char>) -> Option<nat> {
    if name == "alarm"@ {
        Some(0x07)
    } else if name == "backspace"@ {
        Some(0x08)
    } else if name == "delete"@ {
        Some(0x7F)
    } else if name == "escape"@ {
        Some(0x1B)
    } else if name == "newline"@ {
        Some(0x0A)
    } else if name == "null"@ {
        Some(0x00)
    } else if name == "return"@ {
        Some(0x0D)
    } else if name == "space"@ {
        Some(0x20)
    } else if name == "tab"@ {
        Some(0x09)
    } else {
        None
    }
}

/// Boolean literal text: exactly the short true spelling, or the long one, is true.
pub open spec fn bool_of(text: Seq<char>) -> bool {
    text == "#t"@ || text == "#true"@
}

/// What a node of kind `Character` decodes to.
pub open spec fn decode_character(c: ParseNode) -> Result<LiteralView, BuildError> {
    if c.children.len() != 1 {
        Err(mismatch(c))
    } else {
        let k = c.children[0];
        match k.rule {
            Rule::AnyCharacter => if k.text@.len() >= 3 {
                Ok(LiteralView::Char(k.text@[2] as u32 as nat))
            } else {
                Err(mismatch(k))
            },
            Rule::NamedCharacter => if k.children.len() == 1 && k.children[0].rule
                == Rule::CharacterName {
                match named_scalar(k.children[0].text@) {
                    Some(v) => Ok(LiteralView::Char(v)),
                    None => Err(decode_fault(LiteralFault::UnknownName, k.children[0])),
                }
            } else {
                Err(mismatch(k))
            },
            Rule::HexCharacter => if k.children.len() == 1 && k.children[0].rule
                == Rule::HexScalarValue {
                match decode_hex(k.children[0].text@) {
                    Ok(v) => Ok(LiteralView::Char(v)),
                    Err(f) => Err(decode_fault(f, k.children[0])),
                }
            } else {
                Err(mismatch(k))
            },
            _ => Err(mismatch(k)),
        }
    }
}

/// What a node of kind `Literal` decodes to.
pub open spec fn decode_literal(n: ParseNode) -> Result<LiteralView, BuildError> {
    if n.rule != Rule::Literal || n.children.len() != 1 {
        Err(mismatch(n))
    } else {
        let k = n.children[0];
        match k.rule {
            Rule::String => Ok(LiteralView::String(k.text@)),
            Rule::Boolean => Ok(LiteralView::Bool(bool_of(k.text@))),
            Rule::Number => Ok(LiteralView::Number(k.text@)),
            Rule::Character => decode_character(k),
            _ => Err(mismatch(k)),
        }
    }
}

/// Relies on char::from_u32: `Some` exactly for a scalar value, holding that value.
#[verifier::external_body]
fn char_from_scalar(v: u32) -> (r: Option<char>)
    ensures
        r is Some <==> is_scalar(v as nat),
        r matches Some(c) ==> c as u32 == v,
{
    char::from_u32(v)
}

fn text_is(s: &String, lit: &str) -> (r: bool)
    ensures
        r == (s@ == lit@),
{
    let t = String::from_str(lit);
    *s == t
}

fn is_hex_digit_exec(c: char) -> (r: bool)
    ensures
        r == is_hex_digit(c),
{
    ('0' <= c && c <= '9') || ('a' <= c && c <= 'f') || ('A' <= c && c <= 'F')
}

fn hex_digit_value_exec(c: char) -> (r: u32)
    requires
        is_hex_digit(c),
    ensures
        r as nat == hex_digit_value(c),
        r < 16,
{
    if '0' <= c && c <= '9' {
        c as u32 - '0' as u32
    } else if 'a' <= c && c <= 'f' {
        c as u32 - 'a' as u32 + 10
    } else {
        c as u32 - 'A' as u32 + 10
    }
}

/// Decodes the digits of a hex character into the character with that scalar value.
pub fn decode_hex_digits(digits: &str) -> (r: Result<char, LiteralFault>)
    ensures
        match decode_hex(digits@) {
            Ok(v) => r matches Ok(c) && c as u32 as nat == v,
            Err(f) => r == Err::<char, LiteralFault>(f),
        },
{
    let n = digits.unicode_len();
    if n == 0 {
        return Err(LiteralFault::BadHexDigits);
    }
    let mut acc: u32 = 0;
    let mut big = false;
    let mut i: usize = 0;
    while i < n
        invariant
            n == digits@.len(),
            0 <= i <= n,
            all_hex_digits(digits@.take(i as int)),
            !big ==> acc as nat == hex_value(digits@.take(i as int)) && acc <= 0x10FFFF,
            big ==> hex_value(digits@.take(i as int)) > 0x10FFFF,
        decreases n - i,
    {
        let c = digits.get_char(i);
        if !is_hex_digit_exec(c) {
            assert(!all_hex_digits(digits@)) by {
                assert(!is_hex_digit(digits@[i as int]));
            }
            return Err(LiteralFault::BadHexDigits);
        }
        let d = hex_digit_value_exec(c);
        assert(digits@.take(i + 1).drop_last() =~= digits@.take(i as int));
        if !big {
            if acc > 0x10FFFF / 16 {
                big = true;
            } else {
                acc = acc * 16 + d;
                if acc > 0x10FFFF {
                    big = true;
                }
            }
        }
        i = i + 1;
    }
    assert(digits@.take(n as int) =~= digits@);
    if big {
        return Err(LiteralFault::NotAScalarValue);
    }
    match char_from_scalar(acc) {
        Some(c) => Ok(c),
        None => Err(LiteralFault::NotAScalarValue),
    }
}


/// The scalar value of a reserved character name.
pub fn named_char(name: &String) -> (r: Option<char>)
    ensures
        match named_scalar(name@) {
            Some(v) => r matches Some(c) && c as u32 as nat == v,
            None => r is None,
        },
{
    if text_is(name, "alarm") {
        Some('\x07')
    } else if text_is(name, "backspace") {
        Some('\x08')
    } else if text_is(name, "delete") {
        Some('\x7F')
    } else if text_is(name, "escape") {
        Some('\x1B')
    } else if text_is(name, "newline") {
        Some('\x0A')
    } else if text_is(name, "null") {
        Some('\x00')
    } else if text_is(name, "return") {
        Some('\x0D')
    } else if text_is(name, "space") {
        Some('\x20')
    } else if text_is(name, "tab") {
        Some('\x09')
    } else {
        None
    }
}

/// Decodes the text of a boolean literal.
pub fn decode_bool(text: &String) -> (r: bool)
    ensures
        r == bool_of(text@),
{
    text_is(text, "#t") || text_is(text, "#true")
}

fn char_literal(c: char) -> (r: Literal)
    ensures
        r@ == LiteralView::Char(c as u32 as nat),
{
    Literal::Char(c)
}

fn decode_character_node(c: &ParseNode) -> (r: Result<Literal, BuildError>)
    ensures
        match decode_character(*c) {
            Ok(v) => r matches Ok(l) && l@ == v,
            Err(e) => r == Err::<Literal, BuildError>(e),
        },
{
    if c.children.len() != 1 {
        return Err(BuildError::StructuralMismatch { rule: c.rule, start: c.start, end: c.end });
    }
    let k = &c.children[0];
    match k.rule {
        Rule::AnyCharacter => {
            if k.text.as_str().unicode_len() >= 3 {
                Ok(char_literal(k.text.as_str().get_char(2)))
            } else {
                Err(BuildError::StructuralMismatch { rule: k.rule, start: k.start, end: k.end })
            }
        },
        Rule::NamedCharacter => {
            if k.children.len() == 1 && k.children[0].rule == Rule::CharacterName {
                let name = &k.children[0];
                match named_char(&name.text) {
                    Some(ch) => Ok(char_literal(ch)),
                    None => Err(
                        BuildError::LiteralDecode {
                            fault: LiteralFault::UnknownName,
                            start: name.start,
                            end: name.end,
                        },
                    ),
                }
            } else {
                Err(BuildError::StructuralMismatch { rule: k.rule, start: k.start, end: k.end })
            }
        },
        Rule::HexCharacter => {
            if k.children.len() == 1 && k.children[0].rule == Rule::HexScalarValue {
                let digits = &k.children[0];
                match decode_hex_digits(digits.text.as_str()) {
                    Ok(ch) => Ok(char_literal(ch)),
                    Err(f) => Err(
                        BuildError::LiteralDecode { fault: f, start: digits.start, end: digits.end },
                    ),
                }
            } else {
                Err(BuildError::StructuralMismatch { rule: k.rule, start: k.start, end: k.end })
            }
        },
        _ => Err(BuildError::StructuralMismatch { rule: k.rule, start: k.start, end: k.end }),
    }
}

/// Decodes a node of kind `Literal` into its value.
pub fn decode_literal_node(n: &ParseNode) -> (r: Result<Literal, BuildError>)
    ensures
        match decode_literal(*n) {
            Ok(v) => r matches Ok(l) && l@ == v,
            Err(e) => r == Err::<Literal, BuildError>(e),
        },
{
    if n.rule != Rule::Literal || n.children.len() != 1 {
        return Err(BuildError::StructuralMismatch { rule: n.rule, start: n.start, end: n.end });
    }
    let k = &n.children[0];
    match k.rule {
        Rule::String => Ok(Literal::String(k.text.clone())),
        Rule::Boolean => Ok(Literal::Bool(decode_bool(&k.text))),
        Rule::Number => Ok(Literal::Number(k.text.clone())),
        Rule::Character => decode_character_node(k),
        _ => Err(BuildError::StructuralMismatch { rule: k.rule, start: k.start, end: k.end }),
    }
}


/// The upper-case hex digit of a value below sixteen.
pub open spec fn hex_digit_char(d: nat) -> char {
    if d < 10 {
        ('0' as u32 + d) as char
    } else {
        ('A' as u32 + d - 10) as char
    }
}

/// The hex digits of a number, most significant first, without leading zeros.
pub open spec fn hex_digits(n: nat) -> Seq<char>
    decreases n,
{
    if n < 16 {
        seq![hex_digit_char(n)]
    } else {
        hex_digits(n / 16).push(hex_digit_char(n % 16))
    }
}

proof fn lemma_hex_digit_char(d: nat)
    requires
        d < 16,
    ensures
        is_hex_digit(hex_digit_char(d)),
        hex_digit_value(hex_digit_char(d)) == d,
{
    if d < 10 {
        assert(hex_digit_char(d) as u32 == '0' as u32 + d);
    } else {
        assert(hex_digit_char(d) as u32 == 'A' as u32 + d - 10);
    }
}

proof fn lemma_hex_digits(n: nat)
    ensures
        hex_digits(n).len() > 0,
        all_hex_digits(hex_digits(n)),
        hex_value(hex_digits(n)) == n,
    decreases n,
{
    lemma_hex_digit_char(n % 16);
    if n < 16 {
        let s = hex_digits(n);
        assert(s.drop_last() =~= Seq::<char>::empty());
        assert(hex_value(s.drop_last()) == 0);
        assert(s.last() == hex_digit_char(n));
    } else {
        lemma_hex_digits(n / 16);
        let s = hex_digits(n);
        assert(s.drop_last() =~= hex_digits(n / 16));
        assert(n == (n / 16) * 16 + n % 16) by (nonlinear_arith);
        assert(s.last() == hex_digit_char(n % 16));
        assert(hex_value(s) == hex_value(hex_digits(n / 16)) * 16 + hex_digit_value(
            hex_digit_char(n % 16),
        ));
        assert forall|i: int| 0 <= i < s.len() implies is_hex_digit(#[trigger] s[i]) by {
            if i < s.len() - 1 {
                assert(s[i] == hex_digits(n / 16)[i]);
            }
        }
    }
}

/// Decoding the hex digits of any scalar value gives back that value.
pub proof fn lemma_hex_round_trip(v: nat)
    requires
        is_scalar(v),
    ensures
        decode_hex(hex_digits(v)) == Ok::<nat, LiteralFault>(v),
{
    lemma_hex_digits(v);
}

/// The reserved names decode to their fixed scalar values, and no other spelling
/// names a character.
pub proof fn lemma_named_table(name: Seq<char>)
    ensures
        named_scalar("alarm"@) == Some(0x07nat),
        named_scalar("backspace"@) == Some(0x08nat),
        named_scalar("delete"@) == Some(0x7Fnat),
        named_scalar("escape"@) == Some(0x1Bnat),
        named_scalar("newline"@) == Some(0x0Anat),
        named_scalar("null"@) == Some(0x00nat),
        named_scalar("return"@) == Some(0x0Dnat),
        named_scalar("space"@) == Some(0x20nat),
        named_scalar("tab"@) == Some(0x09nat),
        named_scalar(name) is Some <==> (name == "alarm"@ || name == "backspace"@ || name
            == "delete"@ || name == "escape"@ || name == "newline"@ || name == "null"@ || name
            == "return"@ || name == "space"@ || name == "tab"@),
{
    reveal_strlit("alarm");
    reveal_strlit("backspace");
    reveal_strlit("delete");
    reveal_strlit("escape");
    reveal_strlit("newline");
    reveal_strlit("null");
    reveal_strlit("return");
    reveal_strlit("space");
    reveal_strlit("tab");
    assert("backspace"@[0] != "alarm"@[0]);
    assert("delete"@[0] != "alarm"@[0]);
    assert("delete"@[0] != "backspace"@[0]);
    assert("escape"@[0] != "alarm"@[0]);
    assert("escape"@[0] != "backspace"@[0]);
    assert("escape"@[0] != "delete"@[0]);
    assert("newline"@[0] != "alarm"@[0]);
    assert("newline"@[0] != "backspace"@[0]);
    assert("newline"@[0] != "delete"@[0]);
    assert("newline"@[0] != "escape"@[0]);
    assert("null"@[0] != "alarm"@[0]);
    assert("null"@[0] != "backspace"@[0]);
    assert("null"@[0] != "delete"@[0]);
    assert("null"@[0] != "escape"@[0]);
    assert("null"@.len() != "newline"@.len());
    assert("return"@[0] != "alarm"@[0]);
    assert("return"@[0] != "backspace"@[0]);
    assert("return"@[0] != "delete"@[0]);
    assert("return"@[0] != "escape"@[0]);
    assert("return"@[0] != "newline"@[0]);
    assert("return"@[0] != "null"@[0]);
    assert("space"@[0] != "alarm"@[0]);
    assert("space"@[0] != "backspace"@[0]);
    assert("space"@[0] != "delete"@[0]);
    assert("space"@[0] != "escape"@[0]);
    assert("space"@[0] != "newline"@[0]);
    assert("space"@[0] != "null"@[0]);
    assert("space"@[0] != "return"@[0]);
    assert("tab"@[0] != "alarm"@[0]);
    assert("tab"@[0] != "backspace"@[0]);
    assert("tab"@[0] != "delete"@[0]);
    assert("tab"@[0] != "escape"@[0]);
    assert("tab"@[0] != "newline"@[0]);
    assert("tab"@[0] != "null"@[0]);
    assert("tab"@[0] != "return"@[0]);
    assert("tab"@[0] != "space"@[0]);
}

/// Both spellings of each boolean decode to it.
pub proof fn lemma_bool_spellings()
    ensures
        bool_of("#t"@),
        !bool_of("#f"@),
        bool_of("#true"@),
        !bool_of("#false"@),
{
    reveal_strlit("#t");
    reveal_strlit("#f");
    reveal_strlit("#true");
    reveal_strlit("#false");
    assert("#f"@[1] != "#t"@[1]);
    assert("#f"@.len() != "#true"@.len());
    assert("#false"@.len() != "#t"@.len());
    assert("#false"@.len() != "#true"@.len());
}

} // verus!
