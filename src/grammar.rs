//! What tokenizing a source text means, stated over sequences of characters.
use vstd::prelude::*;
use crate::reader::is_ws;
use crate::token::{SpecToken, SpecError};

verus! {

pub open spec fn is_digit(c: char) -> bool {
    '0' <= c && c <= '9'
}

pub open spec fn digit_value(c: char) -> int {
    (c as u32) as int - ('0' as u32) as int
}

/// The value of a run of decimal digits.
pub open spec fn digits_value(ds: Seq<char>) -> int
    decreases ds.len(),
{
    if ds.len() == 0 {
        0
    } else {
        10 * digits_value(ds.drop_last()) + digit_value(ds.last())
    }
}

/// Characters left from `p` on.
pub open spec fn remaining(src: Seq<char>, p: int) -> nat {
    if p < src.len() {
        (src.len() - p) as nat
    } else {
        0
    }
}

/// The position after one step, which never passes the end.
pub open spec fn step_past(src: Seq<char>, p: int) -> int {
    if p < src.len() {
        p + 1
    } else {
        p
    }
}

/// The first position from `p` on that holds no whitespace.
pub open spec fn skip_ws(src: Seq<char>, p: int) -> int
    decreases remaining(src, p),
{
    if 0 <= p < src.len() && is_ws(src[p]) {
        skip_ws(src, p + 1)
    } else {
        p
    }
}

/// The first position from `p` on that holds whitespace, or the end.
pub open spec fn word_end(src: Seq<char>, p: int) -> int
    decreases remaining(src, p),
{
    if 0 <= p < src.len() && !is_ws(src[p]) {
        word_end(src, p + 1)
    } else {
        p
    }
}

/// The first position from `p` on that holds no digit, or the end.
pub open spec fn digits_end(src: Seq<char>, p: int) -> int
    decreases remaining(src, p),
{
    if 0 <= p < src.len() && is_digit(src[p]) {
        digits_end(src, p + 1)
    } else {
        p
    }
}

/// The first position from `p` on that holds a double quote, or the end.
pub open spec fn quote_end(src: Seq<char>, p: int) -> int
    decreases remaining(src, p),
{
    if 0 <= p < src.len() && src[p] != '"' {
        quote_end(src, p + 1)
    } else {
        p
    }
}

pub open spec fn kw_print() -> Seq<char> {
    seq!['p', 'r', 'i', 'n', 't']
}

pub open spec fn kw_if() -> Seq<char> {
    seq!['i', 'f']
}

pub open spec fn kw_end() -> Seq<char> {
    seq!['e', 'n', 'd']
}

pub open spec fn kw_def() -> Seq<char> {
    seq!['d', 'e', 'f']
}

/// The number token for a run of digits, or the failure when the run is
/// empty or its value does not fit in an `i32`.
pub open spec fn number_token(ds: Seq<char>) -> Result<SpecToken, SpecError> {
    if ds.len() > 0 && digits_value(ds) <= i32::MAX {
        Ok(SpecToken::Number(digits_value(ds) as i32))
    } else {
        Err(SpecError::MalformedNumber)
    }
}

/// Where a scan stopped: the tokens it produced, the position after them and
/// the names of the functions defined so far.
pub struct Scanned {
    pub tokens: Seq<SpecToken>,
    pub pos: int,
    pub funcs: Seq<Seq<char>>,
}

/// `t` in front of what the rest of the scan produced; failures pass through.
pub open spec fn prepend(t: SpecToken, rest: Result<Scanned, SpecError>) -> Result<Scanned, SpecError> {
    match rest {
        Ok(sc) => Ok(Scanned { tokens: seq![t] + sc.tokens, pos: sc.pos, funcs: sc.funcs }),
        Err(e) => Err(e),
    }
}

/// The scan of a token sequence from `pos`, with the functions `funcs`
/// defined. Inside a block (`nested`) the word `end` closes the sequence; at
/// the top level it is an error. The end of the input closes the sequence in
/// both cases.
pub open spec fn scan(src: Seq<char>, pos: int, funcs: Seq<Seq<char>>, nested: bool) -> Result<
    Scanned,
    SpecError,
>
    decreases remaining(src, pos), 1int,
{
    if pos < 0 || pos >= src.len() {
        Ok(Scanned { tokens: seq![], pos, funcs })
    } else {
        let c = src[pos];
        if is_digit(c) {
            let e = digits_end(src, pos);
            proof {
                lemma_digits_end(src, pos);
            }
            match number_token(src.subrange(pos, e)) {
                Ok(t) => prepend(t, scan(src, step_past(src, e), funcs, nested)),
                Err(err) => Err(err),
            }
        } else if c == '"' {
            let e = quote_end(src, pos + 1);
            proof {
                lemma_quote_end(src, pos + 1);
            }
            prepend(
                SpecToken::String(src.subrange(pos + 1, e)),
                scan(src, step_past(src, step_past(src, e)), funcs, nested),
            )
        } else if c == '/' {
            prepend(SpecToken::Divide, scan(src, pos + 1, funcs, nested))
        } else if c == '-' {
            prepend(SpecToken::Subtract, scan(src, pos + 1, funcs, nested))
        } else if c == '+' {
            prepend(SpecToken::Add, scan(src, pos + 1, funcs, nested))
        } else if is_ws(c) {
            scan(src, pos + 1, funcs, nested)
        } else {
            match command(src, pos, funcs) {
                Err(err) => Err(err),
                Ok(r) => if r.tokens[0] == SpecToken::End {
                    if nested {
                        Ok(Scanned { tokens: seq![], pos: r.pos, funcs: r.funcs })
                    } else {
                        Err(SpecError::UnexpectedTerminator)
                    }
                } else {
                    // a command never ends before its own word; the maximum
                    // only keeps termination evident
                    let resume = if r.pos > pos { r.pos } else { pos };
                    prepend(r.tokens[0], scan(src, step_past(src, resume), r.funcs, nested))
                },
            }
        }
    }
}

/// The command for the next word from `pos`. The result holds one token:
/// `End` stands for the terminator.
pub open spec fn command(src: Seq<char>, pos: int, funcs: Seq<Seq<char>>) -> Result<
    Scanned,
    SpecError,
>
    decreases remaining(src, pos), 0int,
        when 0 <= pos <= src.len()
{
    let s = skip_ws(src, pos);
    let e = word_end(src, s);
    let w = src.subrange(s, e);
    proof {
        lemma_skip_ws(src, pos);
        lemma_word_end(src, s);
    }
    if w == kw_print() {
        Ok(Scanned { tokens: seq![SpecToken::Print], pos: e, funcs })
    } else if w == kw_end() {
        Ok(Scanned { tokens: seq![SpecToken::End], pos: e, funcs })
    } else if w == kw_if() {
        proof {
            assert(w.len() == 2);
        }
        match scan(src, e, funcs, true) {
            Ok(inner) => Ok(
                Scanned { tokens: seq![SpecToken::If(inner.tokens)], pos: inner.pos, funcs: inner.funcs },
            ),
            Err(err) => Err(err),
        }
    } else if w == kw_def() {
        let ns = skip_ws(src, e);
        let ne = word_end(src, ns);
        let name = src.subrange(ns, ne);
        proof {
            assert(w.len() == 3);
            lemma_skip_ws(src, e);
            lemma_word_end(src, ns);
        }
        match scan(src, ne, funcs, true) {
            Ok(inner) => Ok(
                Scanned {
                    tokens: seq![SpecToken::Function(name, inner.tokens)],
                    pos: inner.pos,
                    funcs: inner.funcs.push(name),
                },
            ),
            Err(err) => Err(err),
        }
    } else if funcs.contains(w) {
        Ok(Scanned { tokens: seq![SpecToken::CallFunction(w)], pos: e, funcs })
    } else {
        Err(SpecError::UnknownCommand(w))
    }
}

/// The tokens of a whole source text, or the first failure.
pub open spec fn tokenize_spec(src: Seq<char>) -> Result<Seq<SpecToken>, SpecError> {
    match scan(src, 0, seq![], false) {
        Ok(sc) => Ok(sc.tokens),
        Err(e) => Err(e),
    }
}

pub proof fn lemma_skip_ws(src: Seq<char>, p: int)
    ensures
        p <= skip_ws(src, p),
        0 <= p <= src.len() ==> skip_ws(src, p) <= src.len(),
        forall|i: int| p <= i < skip_ws(src, p) ==> 0 <= i < src.len() && is_ws(#[trigger] src[i]),
        0 <= skip_ws(src, p) < src.len() ==> !is_ws(src[skip_ws(src, p)]),
        skip_ws(src, p) < 0 ==> skip_ws(src, p) == p,
    decreases remaining(src, p),
{
    if 0 <= p < src.len() && is_ws(src[p]) {
        lemma_skip_ws(src, p + 1);
    }
}

pub proof fn lemma_word_end(src: Seq<char>, p: int)
    ensures
        p <= word_end(src, p),
        0 <= p <= src.len() ==> word_end(src, p) <= src.len(),
        forall|i: int| p <= i < word_end(src, p) ==> 0 <= i < src.len() && !is_ws(#[trigger] src[i]),
        0 <= word_end(src, p) < src.len() ==> is_ws(src[word_end(src, p)]),
        word_end(src, p) > p ==> 0 <= p < src.len(),
    decreases remaining(src, p),
{
    if 0 <= p < src.len() && !is_ws(src[p]) {
        lemma_word_end(src, p + 1);
    }
}

pub proof fn lemma_digits_end(src: Seq<char>, p: int)
    ensures
        p <= digits_end(src, p),
        0 <= p <= src.len() ==> digits_end(src, p) <= src.len(),
        forall|i: int| p <= i < digits_end(src, p) ==> 0 <= i < src.len() && is_digit(#[trigger] src[i]),
        0 <= digits_end(src, p) < src.len() ==> !is_digit(src[digits_end(src, p)]),
        0 <= p < src.len() && is_digit(src[p]) ==> digits_end(src, p) > p,
    decreases remaining(src, p),
{
    if 0 <= p < src.len() && is_digit(src[p]) {
        lemma_digits_end(src, p + 1);
    }
}

pub proof fn lemma_quote_end(src: Seq<char>, p: int)
    ensures
        p <= quote_end(src, p),
        0 <= p <= src.len() ==> quote_end(src, p) <= src.len(),
        forall|i: int| p <= i < quote_end(src, p) ==> 0 <= i < src.len() && #[trigger] src[i] != '"',
        0 <= quote_end(src, p) < src.len() ==> src[quote_end(src, p)] == '"',
    decreases remaining(src, p),
{
    if 0 <= p < src.len() && src[p] != '"' {
        lemma_quote_end(src, p + 1);
    }
}

/// The next word from `p` lies at or after `p`; a word that is not empty lies
/// inside the text.
pub proof fn lemma_word_bounds(src: Seq<char>, p: int)
    ensures
        p <= skip_ws(src, p) <= word_end(src, skip_ws(src, p)),
        word_end(src, skip_ws(src, p)) > skip_ws(src, p) ==> 0 <= skip_ws(src, p) && word_end(
            src,
            skip_ws(src, p),
        ) <= src.len(),
{
    lemma_skip_ws(src, p);
    lemma_word_end(src, skip_ws(src, p));
}

} // verus!
