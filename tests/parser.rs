use r7rs::reader::R7RSParser;
use r7rs::tree::Rule;

#[test]
fn test_blank_string() {
    // Programs can't be blank.
    let parsing = R7RSParser::parse(Rule::Program, "  ");
    assert!(parsing.is_err());
}

#[test]
fn test_a_literal() {
    let parsing = R7RSParser::parse(Rule::Program, "a-symbol");
    assert!(parsing.is_ok());
    let parsing = parsing.unwrap();
    assert_eq!("a-symbol", parsing.as_str());
}

#[test]
fn test_a_form() {
    let parsing = R7RSParser::parse(Rule::Program, "(+ 2 2)");
    match parsing {
        Ok(form) => {
            assert_eq!("(+ 2 2)", form.as_str());
        }
        Err(e) => {
            println!("{:?}", e);
            assert!(false);
        }
    }
}

#[test]
fn test_a_program() {
    let parsing = R7RSParser::parse(Rule::Program, "(+ 2 2)\n(* 3 3)");
    match parsing {
        Ok(form) => {
            assert_eq!("(+ 2 2)\n(* 3 3)", form.as_str());
        }
        Err(e) => {
            println!("{:?}", e);
            assert!(false);
        }
    }
}

#[test]
fn whitespace_and_comments_only_are_rejected() {
    assert!(R7RSParser::parse(Rule::Program, "").is_err());
    assert!(R7RSParser::parse(Rule::Program, " \n\t\r ").is_err());
    assert!(R7RSParser::parse(Rule::Program, "; nothing here\n").is_err());
    assert!(R7RSParser::parse(Rule::Expression, "   ").is_err());
}

#[test]
fn other_rules_cannot_start_a_read() {
    assert!(R7RSParser::parse(Rule::Literal, "#t").is_err());
}

#[test]
fn unbalanced_forms_are_syntax_errors() {
    assert!(R7RSParser::parse(Rule::Program, "(+ 2 2").is_err());
    assert!(R7RSParser::parse(Rule::Program, "()").is_err());
    assert!(R7RSParser::parse(Rule::Program, "\"open").is_err());
}

#[test]
fn program_children_are_commands_or_definitions() {
    let p = R7RSParser::parse(Rule::Program, "(define x 1) x").unwrap();
    assert_eq!(p.children.len(), 2);
    assert_eq!(p.children[0].as_rule(), Rule::CommandOrDefinition);
    assert_eq!(p.children[0].children[0].as_rule(), Rule::Definition);
    assert_eq!(p.children[1].children[0].as_rule(), Rule::Command);
    assert_eq!(p.start, 0);
    assert_eq!(p.end, 14);
}

#[test]
fn a_plain_identifier_reads_as_one_command() {
    let tree = R7RSParser::parse(Rule::Program, "list-tail!").unwrap();
    let ast = r7rs::ast::AST::from(&tree).unwrap();
    let r7rs::ast::AST::Program { imports, cdefs } = ast;
    assert!(imports.is_empty());
    assert_eq!(
        cdefs,
        vec![r7rs::ast::CDef::Command(r7rs::ast::Expression::Identifier(
            "list-tail!".to_string()
        ))]
    );
}
