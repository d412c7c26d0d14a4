use vstd::prelude::*;

verus! {

/// A token as produced by the tokenizer. `If` and `Function` own the
/// tokens of their block.
#[derive(Debug, PartialEq, Eq)]
pub enum Token {
    Divide,
    Add,
    Subtract,
    Print,
    End,
    Number(i32),
    String(String),
    If(Vec<Token>),
    Function(String, Vec<Token>),
    CallFunction(String),
}

/// The mathematical model of a token: text as a sequence of characters,
/// blocks as sequences of models.
pub enum SpecToken {
    Divide,
    Add,
    Subtract,
    Print,
    End,
    Number(i32),
    String(Seq<char>),
    If(Seq<SpecToken>),
    Function(Seq<char>, Seq<SpecToken>),
    CallFunction(Seq<char>),
}

/// Why tokenizing failed.
#[derive(Debug, PartialEq, Eq)]
pub enum ParseError {
    /// `end` outside any open block.
    UnexpectedTerminator,
    /// A run of digits whose value does not fit in an `i32`.
    MalformedNumber,
    /// A word that is no keyword and no function defined so far.
    UnknownCommand(String),
}

/// The model of a `ParseError`.
pub enum SpecError {
    UnexpectedTerminator,
    MalformedNumber,
    UnknownCommand(Seq<char>),
}

pub open spec fn token_model(t: Token) -> SpecToken
    decreases t, 0int,
{
    match t {
        Token::Divide => SpecToken::Divide,
        Token::Add => SpecToken::Add,
        Token::Subtract => SpecToken::Subtract,
        Token::Print => SpecToken::Print,
        Token::End => SpecToken::End,
        Token::Number(n) => SpecToken::Number(n),
        Token::String(s) => SpecToken::String(s@),
        Token::If(body) => SpecToken::If(tokens_model(body@)),
        Token::Function(name, body) => SpecToken::Function(name@, tokens_model(body@)),
        Token::CallFunction(name) => SpecToken::CallFunction(name@),
    }
}

pub open spec fn tokens_model(ts: Seq<Token>) -> Seq<SpecToken>
    decreases ts, 1int,
{
    if ts.len() == 0 {
        Seq::empty()
    } else {
        tokens_model(ts.drop_last()).push(token_model(ts.last()))
    }
}

pub open spec fn error_model(e: ParseError) -> SpecError {
    match e {
        ParseError::UnexpectedTerminator => SpecError::UnexpectedTerminator,
        ParseError::MalformedNumber => SpecError::MalformedNumber,
        ParseError::UnknownCommand(w) => SpecError::UnknownCommand(w@),
    }
}

/// The model of a tokenizing result.
pub open spec fn result_model(r: Result<Vec<Token>, ParseError>) -> Result<Seq<SpecToken>, SpecError> {
    match r {
        Ok(ts) => Ok(tokens_model(ts@)),
        Err(e) => Err(error_model(e)),
    }
}

pub proof fn lemma_tokens_model_push(ts: Seq<Token>, t: Token)
    ensures
        tokens_model(ts.push(t)) == tokens_model(ts).push(token_model(t)),
        tokens_model(ts.push(t)).len() == ts.len() + 1,
{
    assert(ts.push(t).drop_last() =~= ts);
    lemma_tokens_model_len(ts);
}

pub proof fn lemma_tokens_model_len(ts: Seq<Token>)
    ensures
        tokens_model(ts).len() == ts.len(),
    decreases ts.len(),
{
    if ts.len() > 0 {
        lemma_tokens_model_len(ts.drop_last());
    }
}

} // verus!
