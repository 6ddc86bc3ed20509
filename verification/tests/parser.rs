use brainfuck_rs::command::{Command, ParseError};
use brainfuck_rs::token::Token;

fn parse(source: &str) -> Result<Vec<Command>, ParseError> {
    Command::parse_command(Token::tokenization(source))
}

#[test]
fn parses_no_tokens_to_the_empty_program() {
    assert_eq!(Command::parse_command(vec![]), Ok(vec![]));
}

#[test]
fn parses_each_leaf_token_to_its_command() {
    assert_eq!(
        Command::parse_command(vec![
            Token::IncrementPtr,
            Token::DecrementPtr,
            Token::Increment,
            Token::Decrement,
            Token::Output,
            Token::Input,
        ]),
        Ok(vec![
            Command::IncrementPtr,
            Command::DecrementPtr,
            Command::Increment,
            Command::Decrement,
            Command::Output,
            Command::Input,
        ])
    );
}

#[test]
fn program_without_brackets_has_one_command_per_token() {
    let tokens = Token::tokenization("+ + > , . - <");
    let commands = Command::parse_command(tokens.clone()).unwrap();
    assert_eq!(commands.len(), tokens.len());
    assert_eq!(
        commands,
        vec![
            Command::Increment,
            Command::Increment,
            Command::IncrementPtr,
            Command::Input,
            Command::Output,
            Command::Decrement,
            Command::DecrementPtr,
        ]
    );
}

#[test]
fn parses_an_empty_loop() {
    assert_eq!(parse("[]"), Ok(vec![Command::Loop(vec![])]));
}

#[test]
fn parses_a_loop_with_its_body() {
    assert_eq!(
        parse("+[->+<]."),
        Ok(vec![
            Command::Increment,
            Command::Loop(vec![
                Command::Decrement,
                Command::IncrementPtr,
                Command::Increment,
                Command::DecrementPtr,
            ]),
            Command::Output,
        ])
    );
}

#[test]
fn parses_nested_loops_one_node_per_bracket_pair() {
    assert_eq!(
        parse("[[]+[-[.]]],"),
        Ok(vec![
            Command::Loop(vec![
                Command::Loop(vec![]),
                Command::Increment,
                Command::Loop(vec![Command::Decrement, Command::Loop(vec![Command::Output])]),
            ]),
            Command::Input,
        ])
    );
}

#[test]
fn parses_loops_side_by_side() {
    assert_eq!(
        parse("[+][-]"),
        Ok(vec![
            Command::Loop(vec![Command::Increment]),
            Command::Loop(vec![Command::Decrement]),
        ])
    );
}

#[test]
fn loop_body_is_the_parse_of_the_enclosed_tokens() {
    let inner = "+[>,<-]>.";
    let body = parse(inner).unwrap();
    let before = parse("-").unwrap();
    let after = parse("<").unwrap();
    let mut expected = before;
    expected.push(Command::Loop(body));
    expected.extend(after);
    assert_eq!(parse(&format!("-[{}]<", inner)), Ok(expected));
}

#[test]
fn unclosed_bracket_is_reported_at_its_position() {
    assert_eq!(parse("[+"), Err(ParseError::UnmatchedOpenBracket(0)));
    assert_eq!(parse("["), Err(ParseError::UnmatchedOpenBracket(0)));
    assert_eq!(parse("+-["), Err(ParseError::UnmatchedOpenBracket(2)));
}

#[test]
fn stray_closing_bracket_is_reported_at_its_position() {
    assert_eq!(parse("]"), Err(ParseError::UnmatchedCloseBracket(0)));
    assert_eq!(parse("+]"), Err(ParseError::UnmatchedCloseBracket(1)));
    assert_eq!(parse("[]]"), Err(ParseError::UnmatchedCloseBracket(2)));
}

#[test]
fn outermost_open_bracket_is_the_one_reported() {
    assert_eq!(parse("[[]"), Err(ParseError::UnmatchedOpenBracket(0)));
    assert_eq!(parse("[][[]"), Err(ParseError::UnmatchedOpenBracket(2)));
    assert_eq!(parse("[[[+]"), Err(ParseError::UnmatchedOpenBracket(0)));
}

#[test]
fn first_stray_bracket_wins_over_a_later_unclosed_one() {
    assert_eq!(parse("+][+"), Err(ParseError::UnmatchedCloseBracket(1)));
    assert_eq!(parse("[]][["), Err(ParseError::UnmatchedCloseBracket(2)));
}

#[test]
fn error_positions_count_tokens_not_characters() {
    assert_eq!(parse("skip this ]"), Err(ParseError::UnmatchedCloseBracket(0)));
    assert_eq!(parse("a + b [ c"), Err(ParseError::UnmatchedOpenBracket(1)));
    assert_eq!(parse("[ x ] y ] z"), Err(ParseError::UnmatchedCloseBracket(2)));
}
