use vstd::prelude::*;
use crate::grammar::{
    Scanned, scan, command, tokenize_spec, prepend, step_past, remaining, digits_end, quote_end,
    skip_ws, word_end, number_token, digits_value, kw_print, kw_if, kw_end, kw_def,
    lemma_digits_end, lemma_quote_end, lemma_word_bounds,
};
use crate::reader::Reader;
use crate::token::{
    Token, ParseError, SpecToken, SpecError, token_model, tokens_model, error_model, result_model,
    lemma_tokens_model_push,
};

verus! {

/// Scans one source text; `functions` lists, in order of definition, the
/// names of the functions whose `def` block has been read.
pub struct Tokenizer {
    pub r: Reader,
    pub functions: Vec<Vec<char>>,
}

/// `r` is what `expected` describes, with `after` the tokenizer's state once
/// the scan stopped.
pub open spec fn scan_outcome(
    r: Result<Vec<Token>, ParseError>,
    expected: Result<Scanned, SpecError>,
    after: Tokenizer,
) -> bool {
    match expected {
        Ok(sc) => r is Ok && tokens_model(r->Ok_0@) == sc.tokens && after.r.pos == sc.pos
            && after.funcs() == sc.funcs,
        Err(e) => r is Err && error_model(r->Err_0) == e,
    }
}

/// `r` is the single token (or the failure) that `expected` describes.
pub open spec fn command_outcome(
    r: Result<Token, ParseError>,
    expected: Result<Scanned, SpecError>,
    after: Tokenizer,
) -> bool {
    match expected {
        Ok(sc) => r is Ok && token_model(r->Ok_0) == sc.tokens[0] && after.r.pos == sc.pos
            && after.funcs() == sc.funcs,
        Err(e) => r is Err && error_model(r->Err_0) == e,
    }
}

/// The tokens of `ts` in front of what a scan produced.
pub open spec fn prepend_all(ts: Seq<SpecToken>, rest: Result<Scanned, SpecError>) -> Result<
    Scanned,
    SpecError,
> {
    match rest {
        Ok(sc) => Ok(Scanned { tokens: ts + sc.tokens, pos: sc.pos, funcs: sc.funcs }),
        Err(e) => Err(e),
    }
}

proof fn lemma_prepend_all(ts: Seq<SpecToken>, t: SpecToken, rest: Result<Scanned, SpecError>)
    ensures
        prepend_all(ts, prepend(t, rest)) == prepend_all(ts.push(t), rest),
{
    if let Ok(sc) = rest {
        assert(ts + (seq![t] + sc.tokens) =~= ts.push(t) + sc.tokens);
    }
}

/// Relies on `String: FromIterator<char>`, which collects the characters in
/// order.
#[verifier::external_body]
fn text_of(cs: &Vec<char>) -> (s: String)
    ensures
        s@ == cs@,
{
    cs.iter().collect()
}

/// Whether two words hold the same characters.
pub fn same_word(a: &Vec<char>, b: &Vec<char>) -> (r: bool)
    ensures
        r == (a@ == b@),
{
    if a.len() != b.len() {
        return false;
    }
    let mut i: usize = 0;
    while i < a.len()
        invariant
            i <= a.len() == b.len(),
            forall|j: int| 0 <= j < i ==> a@[j] == b@[j],
        decreases a.len() - i,
    {
        if a[i] != b[i] {
            return false;
        }
        i = i + 1;
    }
    assert(a@ =~= b@);
    true
}

fn is_keyword(w: &Vec<char>, kw: &[char]) -> (r: bool)
    ensures
        r == (w@ == kw@),
{
    if w.len() != kw.len() {
        return false;
    }
    let mut i: usize = 0;
    while i < w.len()
        invariant
            i <= w.len() == kw@.len(),
            forall|j: int| 0 <= j < i ==> w@[j] == kw@[j],
        decreases w.len() - i,
    {
        if w[i] != kw[i] {
            return false;
        }
        i = i + 1;
    }
    assert(w@ =~= kw@);
    true
}

fn is_print(w: &Vec<char>) -> (r: bool)
    ensures
        r == (w@ == kw_print()),
{
    assert(['p', 'r', 'i', 'n', 't']@ =~= kw_print());
    is_keyword(w, &['p', 'r', 'i', 'n', 't'])
}

fn is_end(w: &Vec<char>) -> (r: bool)
    ensures
        r == (w@ == kw_end()),
{
    assert(['e', 'n', 'd']@ =~= kw_end());
    is_keyword(w, &['e', 'n', 'd'])
}

fn is_if(w: &Vec<char>) -> (r: bool)
    ensures
        r == (w@ == kw_if()),
{
    assert(['i', 'f']@ =~= kw_if());
    is_keyword(w, &['i', 'f'])
}

fn is_def(w: &Vec<char>) -> (r: bool)
    ensures
        r == (w@ == kw_def()),
{
    assert(['d', 'e', 'f']@ =~= kw_def());
    is_keyword(w, &['d', 'e', 'f'])
}

impl Tokenizer {
    pub open spec fn wf(&self) -> bool {
        self.r.wf()
    }

    /// The source text.
    pub open spec fn src(&self) -> Seq<char> {
        self.r.data@
    }

    /// The names of the functions defined so far.
    pub open spec fn funcs(&self) -> Seq<Seq<char>> {
        self.functions@.map_values(|w: Vec<char>| w@)
    }

    /// A tokenizer at the start of `source`, with no function defined.
    pub fn new(source: &str) -> (t: Tokenizer)
        ensures
            t.wf(),
            t.r.pos == 0,
            t.src() == source@,
            t.funcs() == Seq::<Seq<char>>::empty(),
    {
        let t = Tokenizer { r: Reader::new(source), functions: Vec::new() };
        assert(t.funcs() =~= Seq::<Seq<char>>::empty());
        t
    }

    /// Scans a token sequence from the current position. With `end`, the
    /// word `end` closes it; without, `end` fails. The end of the input
    /// closes it in both cases.
    pub fn get_tokens(&mut self, end: bool) -> (r: Result<Vec<Token>, ParseError>)
        requires
            old(self).wf(),
        ensures
            final(self).wf(),
            final(self).src() == old(self).src(),
            final(self).r.pos >= old(self).r.pos,
            scan_outcome(r, scan(old(self).src(), old(self).r.pos as int, old(self).funcs(), end), *final(self)),
        decreases remaining(old(self).src(), old(self).r.pos as int), 1int,
    {
        let ghost src = self.src();
        let ghost start = self.r.pos as int;
        let ghost funcs0 = self.funcs();
        let mut tokens: Vec<Token> = Vec::new();
        proof {
            assert(tokens_model(tokens@) =~= Seq::<SpecToken>::empty());
            if let Ok(sc) = scan(src, start, funcs0, end) {
                assert(Seq::<SpecToken>::empty() + sc.tokens =~= sc.tokens);
            }
        }
        while !self.r.at_end()
            invariant
                self.wf(),
                src == old(self).src(),
                start == old(self).r.pos,
                funcs0 == old(self).funcs(),
                self.src() == src,
                start <= self.r.pos,
                scan(src, start, funcs0, end) == prepend_all(
                    tokens_model(tokens@),
                    scan(src, self.r.pos as int, self.funcs(), end),
                ),
            decreases self.r.len - self.r.pos,
        {
            let ghost pos = self.r.pos as int;
            let ghost funcs = self.funcs();
            let c = self.r.peek();
            if '0' <= c && c <= '9' {
                proof {
                    lemma_digits_end(src, pos);
                }
                match self.read_number() {
                    Ok(t) => {
                        proof {
                            lemma_digits_end(src, pos);
                            lemma_prepend_all(tokens_model(tokens@), token_model(t), scan(src, step_past(src, self.r.pos as int), funcs, end));
                            lemma_tokens_model_push(tokens@, t);
                        }
                        tokens.push(t);
                    },
                    Err(e) => {
                        return Err(e);
                    },
                }
            } else if c == '"' {
                let t = self.read_string();
                proof {
                    lemma_quote_end(src, pos + 1);
                    lemma_prepend_all(tokens_model(tokens@), token_model(t), scan(src, step_past(src, self.r.pos as int), funcs, end));
                    lemma_tokens_model_push(tokens@, t);
                }
                tokens.push(t);
            } else if c == '/' || c == '-' || c == '+' {
                let t = if c == '/' {
                    Token::Divide
                } else if c == '-' {
                    Token::Subtract
                } else {
                    Token::Add
                };
                proof {
                    lemma_prepend_all(tokens_model(tokens@), token_model(t), scan(src, pos + 1, funcs, end));
                    lemma_tokens_model_push(tokens@, t);
                }
                tokens.push(t);
            } else if self.r.is_whitespace() {
            } else {
                match self.get_command() {
                    Ok(t) => {
                        if let Token::End = t {
                            if end {
                                proof {
                                    assert(tokens_model(tokens@) + Seq::<SpecToken>::empty() =~= tokens_model(tokens@));
                                }
                                return Ok(tokens);
                            } else {
                                return Err(ParseError::UnexpectedTerminator);
                            }
                        }
                        proof {
                            lemma_prepend_all(tokens_model(tokens@), token_model(t), scan(src, step_past(src, self.r.pos as int), self.funcs(), end));
                            lemma_tokens_model_push(tokens@, t);
                        }
                        tokens.push(t);
                    },
                    Err(e) => {
                        return Err(e);
                    },
                }
            }
            if !self.r.at_end() {
                self.r.next();
            }
        }
        proof {
            assert(tokens_model(tokens@) + Seq::<SpecToken>::empty() =~= tokens_model(tokens@));
        }
        Ok(tokens)
    }

    /// Reads a run of decimal digits. An empty run, or one whose value does
    /// not fit in an `i32`, is a `MalformedNumber`.
    pub fn read_number(&mut self) -> (r: Result<Token, ParseError>)
        requires
            old(self).wf(),
        ensures
            final(self).wf(),
            final(self).src() == old(self).src(),
            final(self).functions == old(self).functions,
            final(self).r.pos == digits_end(old(self).src(), old(self).r.pos as int),
            match number_token(old(self).src().subrange(old(self).r.pos as int, final(self).r.pos as int)) {
                Ok(t) => r is Ok && token_model(r->Ok_0) == t,
                Err(e) => r is Err && error_model(r->Err_0) == e,
            },
    {
        let ghost src = self.src();
        let start = self.r.pos;
        let mut value: i32 = 0;
        let mut too_big = false;
        proof {
            assert(src.subrange(start as int, start as int) =~= Seq::<char>::empty());
        }
        while !self.r.at_end() && '0' <= self.r.peek() && self.r.peek() <= '9'
            invariant
                self.wf(),
                self.src() == src,
                self.functions == old(self).functions,
                start <= self.r.pos,
                digits_end(src, start as int) == digits_end(src, self.r.pos as int),
                value >= 0,
                !too_big ==> value == digits_value(src.subrange(start as int, self.r.pos as int)),
                too_big ==> digits_value(src.subrange(start as int, self.r.pos as int)) > i32::MAX,
            decreases self.r.len - self.r.pos,
        {
            let c = self.r.peek();
            let ghost pos = self.r.pos as int;
            let d = (c as u32 - '0' as u32) as i64;
            proof {
                let run = src.subrange(start as int, pos + 1);
                assert(run.drop_last() =~= src.subrange(start as int, pos));
                assert(run.last() == c);
            }
            if !too_big {
                let next = value as i64 * 10 + d;
                if next > i32::MAX as i64 {
                    too_big = true;
                } else {
                    value = next as i32;
                }
            }
            self.r.next();
        }
        if self.r.pos == start || too_big {
            Err(ParseError::MalformedNumber)
        } else {
            Ok(Token::Number(value))
        }
    }

    /// Reads a string: skips the opening character, collects characters up
    /// to the next double quote or the end, and skips that quote if present.
    pub fn read_string(&mut self) -> (t: Token)
        requires
            old(self).wf(),
            old(self).r.pos < old(self).r.len,
        ensures
            final(self).wf(),
            final(self).src() == old(self).src(),
            final(self).functions == old(self).functions,
            final(self).r.pos == step_past(old(self).src(), quote_end(old(self).src(), old(self).r.pos + 1)),
            token_model(t) == SpecToken::String(
                old(self).src().subrange(old(self).r.pos + 1, quote_end(old(self).src(), old(self).r.pos + 1)),
            ),
    {
        let ghost src = self.src();
        self.r.next();
        let start = self.r.pos;
        let mut text: Vec<char> = Vec::new();
        while !self.r.at_end() && self.r.peek() != '"'
            invariant
                self.wf(),
                self.src() == src,
                self.functions == old(self).functions,
                start <= self.r.pos,
                quote_end(src, start as int) == quote_end(src, self.r.pos as int),
                text@ == src.subrange(start as int, self.r.pos as int),
            decreases self.r.len - self.r.pos,
        {
            let c = self.r.peek();
            text.push(c);
            self.r.next();
            assert(text@ =~= src.subrange(start as int, self.r.pos as int));
        }
        if !self.r.at_end() {
            self.r.next();
        }
        Token::String(text_of(&text))
    }

    /// Whether `func` names a function defined so far.
    pub fn valid_function(&self, func: &Vec<char>) -> (r: bool)
        ensures
            r == self.funcs().contains(func@),
    {
        let mut i: usize = 0;
        while i < self.functions.len()
            invariant
                i <= self.functions.len(),
                forall|j: int| 0 <= j < i ==> self.functions@[j]@ != func@,
            decreases self.functions.len() - i,
        {
            if same_word(&self.functions[i], func) {
                assert(self.funcs()[i as int] == func@);
                return true;
            }
            i = i + 1;
        }
        proof {
            assert(!self.funcs().contains(func@));
        }
        false
    }

    /// Skips whitespace, then reads the characters up to the next whitespace
    /// or the end. The word is empty at the end of the input.
    pub fn get_next_word(&mut self) -> (w: Vec<char>)
        requires
            old(self).wf(),
        ensures
            final(self).wf(),
            final(self).src() == old(self).src(),
            final(self).functions == old(self).functions,
            final(self).r.pos == word_end(old(self).src(), skip_ws(old(self).src(), old(self).r.pos as int)),
            w@ == old(self).src().subrange(
                skip_ws(old(self).src(), old(self).r.pos as int),
                final(self).r.pos as int,
            ),
    {
        let ghost src = self.src();
        while !self.r.at_end() && self.r.is_whitespace()
            invariant
                self.wf(),
                self.src() == src,
                self.functions == old(self).functions,
                skip_ws(src, old(self).r.pos as int) == skip_ws(src, self.r.pos as int),
            decreases self.r.len - self.r.pos,
        {
            self.r.next();
        }
        let start = self.r.pos;
        let mut w: Vec<char> = Vec::new();
        while !self.r.at_end() && !self.r.is_whitespace()
            invariant
                self.wf(),
                self.src() == src,
                self.functions == old(self).functions,
                start <= self.r.pos,
                word_end(src, start as int) == word_end(src, self.r.pos as int),
                w@ == src.subrange(start as int, self.r.pos as int),
            decreases self.r.len - self.r.pos,
        {
            let c = self.r.peek();
            w.push(c);
            self.r.next();
            assert(w@ =~= src.subrange(start as int, self.r.pos as int));
        }
        w
    }

    /// Reads the next word and resolves it: `print`, a block opened by `if`
    /// or `def`, the terminator `end` (returned as `Token::End`), or a call of
    /// a function defined so far. Any other word is an `UnknownCommand`.
    pub fn get_command(&mut self) -> (r: Result<Token, ParseError>)
        requires
            old(self).wf(),
        ensures
            final(self).wf(),
            final(self).src() == old(self).src(),
            final(self).r.pos >= old(self).r.pos,
            command_outcome(r, command(old(self).src(), old(self).r.pos as int, old(self).funcs()), *final(self)),
        decreases remaining(old(self).src(), old(self).r.pos as int), 0int,
    {
        let ghost src = self.src();
        let ghost pos = self.r.pos as int;
        proof {
            lemma_word_bounds(src, pos);
        }
        let w = self.get_next_word();
        if is_print(&w) {
            Ok(Token::Print)
        } else if is_end(&w) {
            Ok(Token::End)
        } else if is_if(&w) {
            assert(w@.len() == 2);
            match self.get_tokens(true) {
                Ok(body) => Ok(Token::If(body)),
                Err(e) => Err(e),
            }
        } else if is_def(&w) {
            assert(w@.len() == 3);
            let ghost e = self.r.pos as int;
            proof {
                lemma_word_bounds(src, e);
            }
            let name = self.get_next_word();
            match self.get_tokens(true) {
                Ok(body) => {
                    let text = text_of(&name);
                    let ghost before = self.functions@;
                    self.functions.push(name);
                    assert(self.funcs() =~= before.map_values(|w: Vec<char>| w@).push(name@));
                    Ok(Token::Function(text, body))
                },
                Err(e) => Err(e),
            }
        } else if self.valid_function(&w) {
            Ok(Token::CallFunction(text_of(&w)))
        } else {
            Err(ParseError::UnknownCommand(text_of(&w)))
        }
    }
}

/// The tokens of `source`, or the first failure.
pub fn tokenize(source: &str) -> (r: Result<Vec<Token>, ParseError>)
    ensures
        result_model(r) == tokenize_spec(source@),
{
    let mut t = Tokenizer::new(source);
    t.get_tokens(false)
}

} // verus!
