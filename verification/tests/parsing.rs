use bf_interp::lexing::{Lexer, Token};
use bf_interp::parsing::{
    error_mismatched_loop_closing, error_unclosed_loop, Instruction, ParseError, ParseErrorKind,
    Parser,
};

fn tokens(text: &str) -> Vec<Token> {
    Lexer::tokenize(text).unwrap()
}

fn mismatched(fragment: &str) -> ParseError {
    ParseError { kind: ParseErrorKind::Mismatched, fragment: String::from(fragment) }
}

fn unclosed(fragment: &str) -> ParseError {
    ParseError { kind: ParseErrorKind::Unclosed, fragment: String::from(fragment) }
}

fn count_commands(program: &[Instruction]) -> usize {
    let mut n = 0;
    for instruction in program {
        n += match instruction {
            Instruction::Loop(body) => count_commands(body),
            _ => 1,
        };
    }
    n
}

#[test]
fn parse_empty_program() {
    assert_eq!(Parser::parse(&[]), Ok(vec![]));
}

#[test]
fn parse_commands_in_order() {
    assert_eq!(
        Parser::parse(&tokens("><+-.,")),
        Ok(vec![
            Instruction::Advance,
            Instruction::Recede,
            Instruction::Increment,
            Instruction::Decrement,
            Instruction::Show,
            Instruction::Read,
        ])
    );
}

#[test]
fn parse_nested_loops() {
    assert_eq!(
        Parser::parse(&tokens("+[>[-]<]."), ),
        Ok(vec![
            Instruction::Increment,
            Instruction::Loop(vec![
                Instruction::Advance,
                Instruction::Loop(vec![Instruction::Decrement]),
                Instruction::Recede,
            ]),
            Instruction::Show,
        ])
    );
}

#[test]
fn parse_empty_loop() {
    assert_eq!(
        Parser::parse(&tokens("+[]")),
        Ok(vec![Instruction::Increment, Instruction::Loop(vec![])])
    );
}

#[test]
fn parse_closing_bracket_alone_is_mismatched() {
    assert_eq!(Parser::parse(&[Token::StopLoop]), Err(mismatched("]")));
}

#[test]
fn parse_opening_bracket_alone_is_unclosed() {
    assert_eq!(Parser::parse(&[Token::StartLoop]), Err(unclosed("[")));
}

#[test]
fn parse_mismatched_shows_the_program_so_far() {
    assert_eq!(Parser::parse(&tokens("+-]>>")), Err(mismatched("+-]")));
    assert_eq!(Parser::parse(&tokens("+[-]>]+[")), Err(mismatched("+[-]>]")));
}

#[test]
fn parse_reports_the_first_mismatch_before_an_open_loop() {
    assert_eq!(Parser::parse(&tokens("][")), Err(mismatched("]")));
}

#[test]
fn parse_unclosed_shows_the_innermost_open_loop() {
    assert_eq!(Parser::parse(&tokens("+[>")), Err(unclosed("[>")));
    assert_eq!(Parser::parse(&tokens("[+-.")), Err(unclosed("[+-.")));
    assert_eq!(Parser::parse(&tokens("[[+]-")), Err(unclosed("[[+]-")));
    assert_eq!(Parser::parse(&tokens("+[>[-<,.")), Err(unclosed("[-<,.")));
    assert_eq!(Parser::parse(&tokens("[[-]>>>")), Err(unclosed("[[-]>>>")));
    assert_eq!(Parser::parse(&tokens("[+[->")), Err(unclosed("[->")));
    assert_eq!(Parser::parse(&tokens("[+][")), Err(unclosed("[")));
}

#[test]
fn parse_error_messages() {
    assert_eq!(mismatched("+-]").message(), "Mismatch close loop in: +-]");
    assert_eq!(unclosed("[+-").message(), "Unclosed loop error in: [+-");
    assert_eq!(
        Parser::parse(&tokens(">]")).unwrap_err().message(),
        "Mismatch close loop in: >]"
    );
    assert_eq!(
        Parser::parse(&tokens("[>>>")).unwrap_err().message(),
        "Unclosed loop error in: [>>>"
    );
}

#[test]
fn error_constructors_render_the_instructions() {
    let body = vec![Instruction::Increment, Instruction::Loop(vec![Instruction::Decrement])];
    assert_eq!(error_mismatched_loop_closing(&body), mismatched("+[-]]"));
    assert_eq!(error_unclosed_loop(&body), unclosed("[+[-]"));
    assert_eq!(error_unclosed_loop(&[]), unclosed("["));
    assert_eq!(error_mismatched_loop_closing(&[]), mismatched("]"));
}

#[test]
fn parse_counts_as_many_commands_as_plain_tokens() {
    let text = "++[>+[-]<-]>.,[[[]]]";
    let tokens = tokens(text);
    let plain = tokens
        .iter()
        .filter(|t| **t != Token::StartLoop && **t != Token::StopLoop)
        .count();
    assert_eq!(plain, 10);
    let tree = Parser::parse(&tokens).unwrap();
    assert_eq!(count_commands(&tree), plain);
}

#[test]
fn representation_writes_the_program_back() {
    let text = "+[>[-]<],.";
    let tree = Parser::parse(&tokens(text)).unwrap();
    let mut written = String::new();
    for instruction in &tree {
        written.push_str(&instruction.representation());
    }
    assert_eq!(written, text);
    assert_eq!(Instruction::represents_loop(&tree), "[+[>[-]<],.]");
    assert_eq!(Instruction::represents_mismatched(&tree), "+[>[-]<],.]");
    assert_eq!(Instruction::represents_unclosed(&tree), "[+[>[-]<],.");
}

#[test]
fn representation_of_each_command() {
    assert_eq!(Instruction::Advance.representation(), ">");
    assert_eq!(Instruction::Recede.representation(), "<");
    assert_eq!(Instruction::Increment.representation(), "+");
    assert_eq!(Instruction::Decrement.representation(), "-");
    assert_eq!(Instruction::Show.representation(), ".");
    assert_eq!(Instruction::Read.representation(), ",");
    assert_eq!(Instruction::Loop(vec![]).representation(), "[]");
}

#[test]
fn instruction_from_agrees_with_the_parser() {
    for text in [
        "", "+-", "+[>[-]<].", "]", "[", "+-]>>", "[+-.", "[[+]-", "][", "[[[]]]", "[+[->", "[+][",
        "[[-]>]+", "[]]", "[[",
    ] {
        let tokens = tokens(text);
        assert_eq!(Instruction::from(&tokens), Parser::parse(&tokens), "{}", text);
    }
}

#[test]
fn instruction_from_builds_the_tree() {
    assert_eq!(
        Instruction::from(&tokens("[-]>[[+]]")),
        Ok(vec![
            Instruction::Loop(vec![Instruction::Decrement]),
            Instruction::Advance,
            Instruction::Loop(vec![Instruction::Loop(vec![Instruction::Increment])]),
        ])
    );
}

#[test]
fn represents_unclosed_keeps_the_whole_body() {
    let body = vec![Instruction::Loop(vec![Instruction::Increment]), Instruction::Decrement];
    assert_eq!(Instruction::represents_unclosed(&body), "[[+]-");
    assert_eq!(Instruction::represents_unclosed(&[]), "[");
    assert_eq!(Instruction::represents_unclosed(&[Instruction::Show]), "[.");
}

#[test]
fn instruction_from_reports_the_innermost_open_loop() {
    assert_eq!(Instruction::from(&tokens("[+[->")), Err(unclosed("[->")));
    assert_eq!(Instruction::from(&tokens("[+][")), Err(unclosed("[")));
    assert_eq!(Instruction::from(&tokens("[")), Err(unclosed("[")));
    assert_eq!(Instruction::from(&tokens("[+]-]>")), Err(mismatched("[+]-]")));
}

#[test]
fn instruction_from_nests_without_limit() {
    let depth = 300;
    let text = "[".repeat(depth) + &"]".repeat(depth);
    let tree = Instruction::from(&tokens(&text)).unwrap();
    let mut level = &tree;
    let mut seen = 0;
    while let [Instruction::Loop(body)] = level.as_slice() {
        level = body;
        seen += 1;
    }
    assert_eq!(seen, depth);
    assert!(level.is_empty());
    assert_eq!(Instruction::from(&tokens(&text)), Parser::parse(&tokens(&text)));
}

#[test]
fn from_token_maps_each_command() {
    assert_eq!(Instruction::from_token(&Token::Advance), Instruction::Advance);
    assert_eq!(Instruction::from_token(&Token::Recede), Instruction::Recede);
    assert_eq!(Instruction::from_token(&Token::Increment), Instruction::Increment);
    assert_eq!(Instruction::from_token(&Token::Decrement), Instruction::Decrement);
    assert_eq!(Instruction::from_token(&Token::Show), Instruction::Show);
    assert_eq!(Instruction::from_token(&Token::Read), Instruction::Read);
}

#[test]
fn loop_from_copies_the_body() {
    let body = vec![Instruction::Increment, Instruction::Loop(vec![Instruction::Show])];
    assert_eq!(Instruction::loop_from(&body), Instruction::Loop(body));
}

#[test]
fn clone_copies_the_whole_tree() {
    let tree = Instruction::Loop(vec![
        Instruction::Read,
        Instruction::Loop(vec![Instruction::Loop(vec![]), Instruction::Advance]),
    ]);
    assert_eq!(tree.clone(), tree);
}

#[test]
fn parser_reads_token_by_token() {
    let mut parser = Parser::new();
    assert_eq!(parser.get_finished(), Ok(&vec![]));
    assert_eq!(parser.parse_token(&Token::Increment), Ok(()));
    assert_eq!(parser.parse_token(&Token::StartLoop), Ok(()));
    assert_eq!(parser.get_finished(), Err(unclosed("[")));
    assert_eq!(parser.parse_token(&Token::Decrement), Ok(()));
    assert_eq!(parser.parse_token(&Token::StopLoop), Ok(()));
    assert_eq!(
        parser.get_finished(),
        Ok(&vec![Instruction::Increment, Instruction::Loop(vec![Instruction::Decrement])])
    );
    assert_eq!(parser.parse_token(&Token::StopLoop), Err(mismatched("+[-]]")));
    assert_eq!(
        parser.get_finished(),
        Ok(&vec![Instruction::Increment, Instruction::Loop(vec![Instruction::Decrement])])
    );
}

#[test]
fn parser_steps_one_by_one() {
    let mut parser = Parser::new();
    parser.start_new_loop();
    parser.push_instruction(Instruction::Show);
    parser.start_new_loop();
    assert_eq!(parser.stop_loop(), Ok(()));
    assert_eq!(parser.stop_loop(), Ok(()));
    assert_eq!(parser.stop_loop(), Err(mismatched("[.[]]]")));
    assert_eq!(
        parser.get_finished(),
        Ok(&vec![Instruction::Loop(vec![Instruction::Show, Instruction::Loop(vec![])])])
    );
}

#[test]
fn parse_deep_nesting() {
    let depth = 2000;
    let mut text = String::new();
    for _ in 0..depth {
        text.push('[');
    }
    for _ in 0..depth {
        text.push(']');
    }
    let tree = Parser::parse(&tokens(&text)).unwrap();
    assert_eq!(tree.len(), 1);
    assert_eq!(tree[0].representation(), text);
}
