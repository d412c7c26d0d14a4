use blocklex::{tokenize, ParseError, Reader, Token, Tokenizer};

fn chars(s: &str) -> Vec<char> {
    s.chars().collect()
}

#[test]
fn digits_alone_give_one_number() {
    assert_eq!(tokenize("42"), Ok(vec![Token::Number(42)]));
    assert_eq!(tokenize("0"), Ok(vec![Token::Number(0)]));
    assert_eq!(tokenize("007"), Ok(vec![Token::Number(7)]));
    assert_eq!(tokenize("2147483647"), Ok(vec![Token::Number(2147483647)]));
}

#[test]
fn number_too_large_is_malformed() {
    assert_eq!(tokenize("2147483648"), Err(ParseError::MalformedNumber));
    assert_eq!(tokenize("print 99999999999999999999"), Err(ParseError::MalformedNumber));
}

#[test]
fn quoted_text_gives_one_string() {
    assert_eq!(tokenize("\"hi\""), Ok(vec![Token::String("hi".to_string())]));
    assert_eq!(tokenize("\"a b\tc\""), Ok(vec![Token::String("a b\tc".to_string())]));
    assert_eq!(tokenize("\"\""), Ok(vec![Token::String(String::new())]));
}

#[test]
fn unterminated_string_stops_at_end() {
    assert_eq!(tokenize("\"abc"), Ok(vec![Token::String("abc".to_string())]));
    assert_eq!(tokenize("\""), Ok(vec![Token::String(String::new())]));
}

#[test]
fn sum_of_two_numbers() {
    assert_eq!(
        tokenize("1 + 2"),
        Ok(vec![Token::Number(1), Token::Add, Token::Number(2)])
    );
}

#[test]
fn operators() {
    assert_eq!(
        tokenize("/ - +"),
        Ok(vec![Token::Divide, Token::Subtract, Token::Add])
    );
    assert_eq!(tokenize("/-+"), Ok(vec![Token::Divide, Token::Subtract, Token::Add]));
}

#[test]
fn if_block() {
    assert_eq!(tokenize("if print end"), Ok(vec![Token::If(vec![Token::Print])]));
}

#[test]
fn nested_blocks() {
    assert_eq!(
        tokenize("if 1 if print end \"x\" end print"),
        Ok(vec![
            Token::If(vec![
                Token::Number(1),
                Token::If(vec![Token::Print]),
                Token::String("x".to_string()),
            ]),
            Token::Print,
        ])
    );
}

#[test]
fn function_definition_then_call() {
    assert_eq!(
        tokenize("def foo print end foo"),
        Ok(vec![
            Token::Function("foo".to_string(), vec![Token::Print]),
            Token::CallFunction("foo".to_string()),
        ])
    );
}

#[test]
fn unknown_command_carries_word() {
    assert_eq!(
        tokenize("foo"),
        Err(ParseError::UnknownCommand("foo".to_string()))
    );
}

#[test]
fn call_before_definition_is_unknown() {
    assert_eq!(
        tokenize("foo def foo print end"),
        Err(ParseError::UnknownCommand("foo".to_string()))
    );
}

#[test]
fn call_inside_own_body_is_unknown() {
    assert_eq!(
        tokenize("def foo foo end"),
        Err(ParseError::UnknownCommand("foo".to_string()))
    );
}

#[test]
fn end_at_top_level_fails() {
    assert_eq!(tokenize("end"), Err(ParseError::UnexpectedTerminator));
    assert_eq!(tokenize("print end print"), Err(ParseError::UnexpectedTerminator));
}

#[test]
fn unterminated_block_closes_at_end() {
    assert_eq!(tokenize("if print"), Ok(vec![Token::If(vec![Token::Print])]));
    assert_eq!(
        tokenize("def f 3"),
        Ok(vec![Token::Function("f".to_string(), vec![Token::Number(3)])])
    );
}

#[test]
fn failure_inside_block_aborts() {
    assert_eq!(
        tokenize("if bar end"),
        Err(ParseError::UnknownCommand("bar".to_string()))
    );
}

#[test]
fn empty_and_blank_sources() {
    assert_eq!(tokenize(""), Ok(vec![]));
    assert_eq!(tokenize(" \n\t "), Ok(vec![]));
}

#[test]
fn tokenizing_twice_gives_equal_tokens() {
    let src = "def f if 12 print end end f \"s\" + 3";
    let first = tokenize(src);
    let second = tokenize(src);
    assert!(first.is_ok());
    assert_eq!(first, second);
}

#[test]
fn extra_whitespace_changes_nothing() {
    let plain = tokenize("def f print end f 1 + 2 / 3");
    let spaced = tokenize("  def \t f\n\n print   end \t f  1   +\n2 /\t\t3  ");
    assert!(plain.is_ok());
    assert_eq!(plain, spaced);
    assert_eq!(tokenize("\"a b\" 1"), tokenize("\"a b\"   \n 1"));
}

#[test]
fn non_ascii_text_is_kept() {
    assert_eq!(tokenize("\"héllo\""), Ok(vec![Token::String("héllo".to_string())]));
    assert_eq!(
        tokenize("def ünï print end ünï"),
        Ok(vec![
            Token::Function("ünï".to_string(), vec![Token::Print]),
            Token::CallFunction("ünï".to_string()),
        ])
    );
}

#[test]
fn reader_moves_and_classifies() {
    let mut r = Reader::new("a b");
    assert_eq!(r.len, 3);
    assert!(!r.at_end());
    assert_eq!(r.peek(), 'a');
    assert!(!r.is_whitespace());
    r.next();
    assert!(r.is_whitespace());
    r.next();
    assert_eq!(r.peek(), 'b');
    r.next();
    assert!(r.at_end());
}

#[test]
fn next_word_skips_whitespace() {
    let mut t = Tokenizer::new("   hello\tworld");
    assert_eq!(t.get_next_word(), chars("hello"));
    assert_eq!(t.get_next_word(), chars("world"));
    assert_eq!(t.get_next_word(), chars(""));
}

#[test]
fn read_number_and_string() {
    let mut t = Tokenizer::new("123 x");
    assert_eq!(t.read_number(), Ok(Token::Number(123)));
    assert_eq!(t.r.pos, 3);
    let mut t = Tokenizer::new("x");
    assert_eq!(t.read_number(), Err(ParseError::MalformedNumber));
    let mut t = Tokenizer::new("\"ab\" c");
    assert_eq!(t.read_string(), Token::String("ab".to_string()));
    assert_eq!(t.r.pos, 4);
}

#[test]
fn command_resolution() {
    let mut t = Tokenizer::new("end");
    assert_eq!(t.get_command(), Ok(Token::End));
    let mut t = Tokenizer::new("def g end g");
    assert_eq!(
        t.get_command(),
        Ok(Token::Function("g".to_string(), vec![]))
    );
    assert!(t.valid_function(&chars("g")));
    assert!(!t.valid_function(&chars("h")));
    assert_eq!(t.get_tokens(false), Ok(vec![Token::CallFunction("g".to_string())]));
}

#[test]
fn duplicate_definitions_are_kept() {
    let mut t = Tokenizer::new("def g end def g print end");
    assert_eq!(t.get_tokens(false).map(|ts| ts.len()), Ok(2));
    assert_eq!(t.functions.len(), 2);
}

#[test]
fn character_after_literal_is_consumed() {
    assert_eq!(tokenize("12+3"), Ok(vec![Token::Number(12), Token::Number(3)]));
    assert_eq!(tokenize("\"a\"+1"), Ok(vec![Token::String("a".to_string()), Token::Number(1)]));
}
