use r7rs::ast::{CDef, Expression, Operand, Operator, Span, AST};
use r7rs::literal::{decode_bool, decode_hex_digits, BuildError, Literal, LiteralFault};
use r7rs::reader::{read, R7RSParser, ReadError};
use r7rs::tree::{ParseNode, Rule};

fn expression_of(input: &str) -> Expression {
    let pair = R7RSParser::parse(Rule::Expression, input).unwrap();
    Expression::from(&pair).unwrap()
}

fn build_program(input: &str) -> Result<AST, BuildError> {
    let tree = R7RSParser::parse(Rule::Program, input).unwrap();
    AST::from(&tree)
}

fn number(text: &str) -> Expression {
    Expression::Literal(Literal::Number(text.to_string()))
}

fn ident(text: &str) -> Expression {
    Expression::Identifier(text.to_string())
}

#[test]
fn ast_test_expression() {
    let expression = expression_of("foo");
    assert_eq!(expression, Expression::Identifier("foo".to_string()));
}

#[test]
fn ast_test_literal_string() {
    let expression = expression_of("\"foo\"");
    assert_eq!(
        expression,
        Expression::Literal(Literal::String("\"foo\"".to_string()))
    );
}

#[test]
fn r7rs_ast_test_expression() {
    let expression = expression_of("foo");
    assert_eq!(expression, Expression::Identifier("foo".to_string()));
}

#[test]
fn r7rs_ast_test_literal_string() {
    let expression = expression_of("\"foo\"");
    assert_eq!(
        expression,
        Expression::Literal(Literal::String("\"foo\"".to_string()))
    );
}

#[test]
fn test_literal_bools_short_or_long_and_true_or_false() {
    let tests = [
        ("#t", true),
        ("#f", false),
        ("#true", true),
        ("#false", false),
    ];
    for (input, expected) in tests.iter() {
        let expression = expression_of(input);
        assert_eq!(expression, Expression::Literal(Literal::Bool(*expected)));
    }
}

#[test]
fn test_literal_chars() {
    let tests = [
        ("#\\a", 'a'),
        ("#\\A", 'A'),
        ("#\\space", ' '),
        ("#\\newline", '\n'),
        // hex
        ("#\\x20", ' '),
        ("#\\x0A", '\n'),
        // long hex
        ("#\\x00000020", ' '),
        ("#\\x0000000A", '\n'),
        // astral-plane code points
        ("#\\x1F600", '\u{1F600}'),
        ("#\\x1F601", '\u{1F601}'),
        ("#\\x1F602", '\u{1F602}'),
        ("#\\x1F603", '\u{1F603}'),
        ("#\\x1F604", '\u{1F604}'),
        ("#\\x1F605", '\u{1F605}'),
        ("#\\x1F606", '\u{1F606}'),
        ("#\\x1F607", '\u{1F607}'),
        ("#\\x1F608", '\u{1F608}'),
        ("#\\x1F609", '\u{1F609}'),
        ("#\\x1F60A", '\u{1F60A}'),
        ("#\\x1F60B", '\u{1F60B}'),
        ("#\\x1F60C", '\u{1F60C}'),
        ("#\\x1F60D", '\u{1F60D}'),
        ("#\\x1F60E", '\u{1F60E}'),
        ("#\\x1F60F", '\u{1F60F}'),
        ("#\\x1F610", '\u{1F610}'),
        ("#\\x1F611", '\u{1F611}'),
        ("#\\x1F612", '\u{1F612}'),
        ("#\\x1F613", '\u{1F613}'),
        ("#\\x1F614", '\u{1F614}'),
        ("#\\x1F615", '\u{1F615}'),
        ("#\\x1F616", '\u{1F616}'),
        ("#\\x1F617", '\u{1F617}'),
        ("#\\x1F618", '\u{1F618}'),
        ("#\\x1F619", '\u{1F619}'),
        ("#\\x1F61A", '\u{1F61A}'),
        ("#\\x1F61B", '\u{1F61B}'),
        ("#\\x1F61C", '\u{1F61C}'),
        ("#\\x1F61D", '\u{1F61D}'),
        ("#\\x1F61E", '\u{1F61E}'),
        ("#\\x1F61F", '\u{1F61F}'),
        ("#\\x1F620", '\u{1F620}'),
        ("#\\x1F621", '\u{1F621}'),
        ("#\\x1F622", '\u{1F622}'),
        ("#\\x1F623", '\u{1F623}'),
        ("#\\x1F624", '\u{1F624}'),
    ];
    for (input, expected) in tests.iter() {
        let expression = expression_of(input);
        assert_eq!(expression, Expression::Literal(Literal::Char(*expected)));
    }
}

#[test]
fn every_reserved_name_decodes() {
    let tests = [
        ("alarm", '\x07'),
        ("backspace", '\x08'),
        ("delete", '\x7F'),
        ("escape", '\x1B'),
        ("newline", '\x0A'),
        ("null", '\x00'),
        ("return", '\x0D'),
        ("space", '\x20'),
        ("tab", '\x09'),
    ];
    for (name, expected) in tests.iter() {
        let input = format!("#\\{}", name);
        assert_eq!(
            expression_of(&input),
            Expression::Literal(Literal::Char(*expected))
        );
        assert_eq!(r7rs::literal::named_char(&name.to_string()), Some(*expected));
    }
    assert_eq!(r7rs::literal::named_char(&"nul".to_string()), None);
    assert_eq!(r7rs::literal::named_char(&"Space".to_string()), None);
}

#[test]
fn hex_round_trip_on_sample_scalars() {
    for v in [0u32, 0x41, 0xD7FF, 0xE000, 0xFFFD, 0x1F600, 0x10FFFF] {
        let digits = format!("{:X}", v);
        let c = r7rs::literal::decode_hex_digits(&digits).unwrap();
        assert_eq!(c as u32, v);
    }
}

#[test]
fn hex_rejects_surrogates_and_out_of_range() {
    assert_eq!(decode_hex_digits("D800"), Err(LiteralFault::NotAScalarValue));
    assert_eq!(decode_hex_digits("DFFF"), Err(LiteralFault::NotAScalarValue));
    assert_eq!(decode_hex_digits("110000"), Err(LiteralFault::NotAScalarValue));
    assert_eq!(
        decode_hex_digits("FFFFFFFFFFFFFFFFFFFF"),
        Err(LiteralFault::NotAScalarValue)
    );
    assert_eq!(decode_hex_digits(""), Err(LiteralFault::BadHexDigits));
    assert_eq!(decode_hex_digits("1G"), Err(LiteralFault::BadHexDigits));
}

#[test]
fn surrogate_character_literal_is_a_decode_error() {
    let pair = R7RSParser::parse(Rule::Expression, "#\\xD800").unwrap();
    match Expression::from(&pair) {
        Err(BuildError::LiteralDecode { fault, start, end }) => {
            assert_eq!(fault, LiteralFault::NotAScalarValue);
            assert_eq!((start, end), (3, 7));
        }
        other => panic!("unexpected {:?}", other),
    }
}

#[test]
fn decode_bool_takes_both_spellings() {
    assert!(decode_bool(&"#t".to_string()));
    assert!(decode_bool(&"#true".to_string()));
    assert!(!decode_bool(&"#f".to_string()));
    assert!(!decode_bool(&"#false".to_string()));
}

#[test]
fn procedure_call_keeps_operator_and_operands() {
    let e = expression_of("(+ 2 2)");
    assert_eq!(
        e,
        Expression::ProcedureCall(
            Operator(Box::new(ident("+"))),
            vec![
                Operand(Box::new(number("2"))),
                Operand(Box::new(number("2")))
            ]
        )
    );
}

#[test]
fn program_of_two_calls_in_order() {
    let ast = build_program("(+ 2 2)\n(* 3 3)").unwrap();
    let AST::Program { imports, cdefs } = ast;
    assert!(imports.is_empty());
    assert_eq!(cdefs.len(), 2);
    assert_eq!(
        cdefs[0],
        CDef::Command(Expression::ProcedureCall(
            Operator(Box::new(ident("+"))),
            vec![
                Operand(Box::new(number("2"))),
                Operand(Box::new(number("2")))
            ]
        ))
    );
    assert_eq!(
        cdefs[1],
        CDef::Command(Expression::ProcedureCall(
            Operator(Box::new(ident("*"))),
            vec![
                Operand(Box::new(number("3"))),
                Operand(Box::new(number("3")))
            ]
        ))
    );
}

#[test]
fn special_forms_keep_their_span() {
    let e = expression_of("(lambda (x) x)");
    assert_eq!(
        e,
        Expression::Lambda(Span {
            text: "(lambda (x) x)".to_string(),
            start: 0,
            end: 14
        })
    );
    assert!(matches!(expression_of("(if #t 1 2)"), Expression::Conditional(_)));
    assert!(matches!(expression_of("(set! x 1)"), Expression::Assignment(_)));
    assert!(matches!(expression_of("(let ((x 1)) x)"), Expression::DerivedExpression(_)));
    assert!(matches!(expression_of("(let-syntax () 1)"), Expression::MacroBlock(_)));
    assert!(matches!(expression_of("(include \"f.scm\")"), Expression::Includer(_)));
}

#[test]
fn definitions_are_markers() {
    let AST::Program { cdefs, .. } = build_program("(define x 1)").unwrap();
    assert_eq!(cdefs, vec![CDef::Definition]);
}

#[test]
fn whitespace_program_is_a_syntax_error() {
    assert!(R7RSParser::parse(Rule::Program, "   ").is_err());
}

fn leaf(rule: Rule, text: &str, start: usize, end: usize) -> ParseNode {
    ParseNode {
        rule,
        text: text.to_string(),
        start,
        end,
        children: Vec::new(),
    }
}

#[test]
fn unexpected_node_kind_is_a_structural_mismatch() {
    let bad = ParseNode {
        rule: Rule::Expression,
        text: "x".to_string(),
        start: 4,
        end: 5,
        children: vec![leaf(Rule::Boolean, "x", 4, 5)],
    };
    assert_eq!(
        Expression::from(&bad),
        Err(BuildError::StructuralMismatch {
            rule: Rule::Boolean,
            start: 4,
            end: 5
        })
    );
    let not_program = leaf(Rule::Command, "", 0, 0);
    assert_eq!(
        AST::from(&not_program),
        Err(BuildError::StructuralMismatch {
            rule: Rule::Command,
            start: 0,
            end: 0
        })
    );
    let not_cdef = leaf(Rule::Expression, "", 0, 0);
    assert_eq!(
        CDef::from(&not_cdef),
        Err(BuildError::StructuralMismatch {
            rule: Rule::Expression,
            start: 0,
            end: 0
        })
    );
}

#[test]
fn unknown_character_name_is_a_decode_error() {
    let name = leaf(Rule::CharacterName, "bell", 2, 6);
    let named = ParseNode {
        rule: Rule::NamedCharacter,
        text: "#\\bell".to_string(),
        start: 0,
        end: 6,
        children: vec![name],
    };
    let character = ParseNode {
        rule: Rule::Character,
        text: "#\\bell".to_string(),
        start: 0,
        end: 6,
        children: vec![named],
    };
    let literal = ParseNode {
        rule: Rule::Literal,
        text: "#\\bell".to_string(),
        start: 0,
        end: 6,
        children: vec![character],
    };
    assert_eq!(
        r7rs::literal::decode_literal_node(&literal),
        Err(BuildError::LiteralDecode {
            fault: LiteralFault::UnknownName,
            start: 2,
            end: 6
        })
    );
}

#[test]
fn import_declarations_are_passed_over() {
    let cmd = R7RSParser::parse(Rule::Program, "x").unwrap();
    let mut children = vec![leaf(Rule::ImportDeclaration, "(import (scheme base))", 0, 22)];
    for c in cmd.children {
        children.push(c);
    }
    let program = ParseNode {
        rule: Rule::Program,
        text: String::new(),
        start: 0,
        end: 0,
        children,
    };
    let AST::Program { imports, cdefs } = AST::from(&program).unwrap();
    assert!(imports.is_empty());
    assert_eq!(cdefs, vec![CDef::Command(ident("x"))]);
}

#[test]
fn building_reports_literal_decode_errors() {
    assert_eq!(
        build_program("(display #\\x110000)"),
        Err(BuildError::LiteralDecode {
            fault: LiteralFault::NotAScalarValue,
            start: 12,
            end: 18
        })
    );
}

#[test]
fn operands_keep_source_order() {
    let e = expression_of("(f \"s\" #\\a (g) #t)");
    assert_eq!(
        e,
        Expression::ProcedureCall(
            Operator(Box::new(ident("f"))),
            vec![
                Operand(Box::new(Expression::Literal(Literal::String("\"s\"".to_string())))),
                Operand(Box::new(Expression::Literal(Literal::Char('a')))),
                Operand(Box::new(Expression::ProcedureCall(
                    Operator(Box::new(ident("g"))),
                    vec![]
                ))),
                Operand(Box::new(Expression::Literal(Literal::Bool(true)))),
            ]
        )
    );
}

#[test]
fn read_builds_programs_and_reports_both_error_kinds() {
    let AST::Program { imports, cdefs } = read("(+ 2 2)\n(* 3 3)").unwrap();
    assert!(imports.is_empty());
    assert_eq!(cdefs.len(), 2);
    assert!(matches!(read("   "), Err(ReadError::Syntax(_))));
    assert!(matches!(read("(+ 1"), Err(ReadError::Syntax(_))));
    assert_eq!(
        read("(display #\\x110000)"),
        Err(ReadError::Build(BuildError::LiteralDecode {
            fault: LiteralFault::NotAScalarValue,
            start: 12,
            end: 18
        }))
    );
}

#[test]
fn first_fault_in_source_order_is_reported() {
    assert_eq!(
        build_program("(f #\\xD800 #\\x110000)"),
        Err(BuildError::LiteralDecode {
            fault: LiteralFault::NotAScalarValue,
            start: 6,
            end: 10
        })
    );
}
