//! Properties of tokenizing that hold for whole families of source texts.
use vstd::prelude::*;
use crate::grammar::{
    Scanned, scan, command, tokenize_spec, step_past, remaining, skip_ws, word_end, digits_end,
    quote_end, is_digit, digits_value, lemma_digits_end, lemma_word_end,
    lemma_skip_ws, lemma_quote_end, kw_if, kw_def,
};
use crate::reader::is_ws;
use crate::token::{Token, ParseError, SpecToken, SpecError, result_model};

verus! {

/// Every character of `s` is a decimal digit.
pub open spec fn all_digits(s: Seq<char>) -> bool {
    forall|k: int| 0 <= k < s.len() ==> is_digit(#[trigger] s[k])
}

/// `s` holds no double quote.
pub open spec fn no_quote(s: Seq<char>) -> bool {
    forall|k: int| 0 <= k < s.len() ==> #[trigger] s[k] != '"'
}

/// `t` between two double quotes.
pub open spec fn quoted(t: Seq<char>) -> Seq<char> {
    seq!['"'] + t + seq!['"']
}

proof fn lemma_digits_end_all(s: Seq<char>, p: int)
    requires
        0 <= p <= s.len(),
        all_digits(s),
    ensures
        digits_end(s, p) == s.len(),
    decreases s.len() - p,
{
    if p < s.len() {
        lemma_digits_end_all(s, p + 1);
    }
}

proof fn lemma_quote_end_none(s: Seq<char>, p: int, q: int)
    requires
        0 <= p <= q < s.len(),
        s[q] == '"',
        forall|k: int| p <= k < q ==> #[trigger] s[k] != '"',
    ensures
        quote_end(s, p) == q,
    decreases q - p,
{
    if p < q {
        lemma_quote_end_none(s, p + 1, q);
    }
}

/// A source text made of digits alone gives one number token with their
/// value, or `MalformedNumber` when that value does not fit in an `i32`.
pub proof fn law_digits_give_one_number(s: Seq<char>)
    requires
        s.len() > 0,
        all_digits(s),
    ensures
        digits_value(s) <= i32::MAX ==> tokenize_spec(s) == Ok::<Seq<SpecToken>, SpecError>(
            seq![SpecToken::Number(digits_value(s) as i32)],
        ),
        digits_value(s) > i32::MAX ==> tokenize_spec(s) == Err::<Seq<SpecToken>, SpecError>(
            SpecError::MalformedNumber,
        ),
{
    lemma_digits_end_all(s, 0);
    assert(s.subrange(0, s.len() as int) =~= s);
    assert(is_digit(s[0]));
    let rest = scan(s, s.len() as int, seq![], false);
    assert(rest == Ok::<Scanned, SpecError>(Scanned { tokens: seq![], pos: s.len() as int, funcs: seq![] }));
    assert(seq![SpecToken::Number(digits_value(s) as i32)] + Seq::<SpecToken>::empty()
        =~= seq![SpecToken::Number(digits_value(s) as i32)]);
}

/// A source text that is some text without double quotes, between two
/// double quotes, gives one string token holding that text.
pub proof fn law_quoted_text_gives_one_string(t: Seq<char>)
    requires
        no_quote(t),
    ensures
        tokenize_spec(quoted(t)) == Ok::<Seq<SpecToken>, SpecError>(seq![SpecToken::String(t)]),
{
    let s = quoted(t);
    let n = t.len() as int;
    assert(s.len() == n + 2);
    assert(s[0] == '"');
    assert(s[n + 1] == '"');
    assert forall|k: int| 1 <= k < n + 1 implies #[trigger] s[k] != '"' by {
        assert(s[k] == t[k - 1]);
    }
    lemma_quote_end_none(s, 1, n + 1);
    assert(s.subrange(1, n + 1) =~= t);
    let rest = scan(s, n + 2, seq![], false);
    assert(rest == Ok::<Scanned, SpecError>(Scanned { tokens: seq![], pos: n + 2, funcs: seq![] }));
    assert(seq![SpecToken::String(t)] + Seq::<SpecToken>::empty() =~= seq![SpecToken::String(t)]);
}

/// Tokenizing depends on the source text alone: two calls of `tokenize` on
/// the same text give equal tokens, or the same failure.
pub proof fn law_tokenize_is_repeatable(
    s: Seq<char>,
    first: Result<Vec<Token>, ParseError>,
    second: Result<Vec<Token>, ParseError>,
)
    requires
        result_model(first) == tokenize_spec(s),
        result_model(second) == tokenize_spec(s),
    ensures
        result_model(first) == result_model(second),
{
}

/// `s` with `c` inserted right after position `i`.
pub open spec fn insert_char(s: Seq<char>, i: int, c: char) -> Seq<char> {
    s.subrange(0, i + 1).push(c) + s.subrange(i + 1, s.len() as int)
}

/// Where position `p` of a text lands once a character is inserted right
/// after position `i`.
pub open spec fn shift(i: int, p: int) -> int {
    if p <= i {
        p
    } else {
        p + 1
    }
}

/// The conditions under which inserting `c` right after position `i` of `s`
/// changes no token: `c` and `s[i]` are whitespace, and no string starts at
/// or before `i`, so that `s[i]` lies in no string.
pub open spec fn blank_insertion(s: Seq<char>, i: int, c: char) -> bool {
    &&& 0 <= i < s.len()
    &&& is_ws(s[i])
    &&& is_ws(c)
    &&& no_quote(s.subrange(0, i + 1))
}

/// Two scan results that agree but for positions, which `shift` relates.
pub open spec fn agree(i: int, moved: Result<Scanned, SpecError>, orig: Result<Scanned, SpecError>) -> bool {
    match (moved, orig) {
        (Ok(a), Ok(b)) => a.tokens == b.tokens && a.funcs == b.funcs && a.pos == shift(i, b.pos),
        (Err(a), Err(b)) => a == b,
        _ => false,
    }
}

proof fn lemma_insert_index(s: Seq<char>, i: int, c: char)
    requires
        0 <= i < s.len(),
    ensures
        insert_char(s, i, c).len() == s.len() + 1,
        insert_char(s, i, c)[i + 1] == c,
        forall|p: int| 0 <= p < s.len() ==> #[trigger] insert_char(s, i, c)[shift(i, p)] == s[p],
{
    let t = insert_char(s, i, c);
    assert forall|p: int| 0 <= p < s.len() implies #[trigger] t[shift(i, p)] == s[p] by {
        if p <= i {
            assert(t[p] == s.subrange(0, i + 1)[p]);
        } else {
            assert(t[p + 1] == s.subrange(i + 1, s.len() as int)[p - i - 1]);
        }
    }
}

proof fn lemma_skip_ws_shift(s: Seq<char>, i: int, c: char, p: int)
    requires
        blank_insertion(s, i, c),
        0 <= p,
    ensures
        skip_ws(insert_char(s, i, c), shift(i, p)) == shift(i, skip_ws(s, p)),
    decreases remaining(s, p),
{
    let t = insert_char(s, i, c);
    lemma_insert_index(s, i, c);
    if p < s.len() && is_ws(s[p]) {
        lemma_skip_ws_shift(s, i, c, p + 1);
        if p == i {
            assert(t[i + 1] == c);
            assert(skip_ws(t, i + 1) == skip_ws(t, i + 2));
        }
    }
}

proof fn lemma_word_end_shift(s: Seq<char>, i: int, c: char, p: int)
    requires
        blank_insertion(s, i, c),
        0 <= p,
    ensures
        word_end(insert_char(s, i, c), shift(i, p)) == shift(i, word_end(s, p)),
    decreases remaining(s, p),
{
    lemma_insert_index(s, i, c);
    if p < s.len() && !is_ws(s[p]) {
        lemma_word_end_shift(s, i, c, p + 1);
    }
}

proof fn lemma_digits_end_shift(s: Seq<char>, i: int, c: char, p: int)
    requires
        blank_insertion(s, i, c),
        0 <= p,
    ensures
        digits_end(insert_char(s, i, c), shift(i, p)) == shift(i, digits_end(s, p)),
    decreases remaining(s, p),
{
    lemma_insert_index(s, i, c);
    if p < s.len() && is_digit(s[p]) {
        lemma_digits_end_shift(s, i, c, p + 1);
    }
}

proof fn lemma_quote_end_shift(s: Seq<char>, i: int, c: char, p: int)
    requires
        blank_insertion(s, i, c),
        i < p,
    ensures
        quote_end(insert_char(s, i, c), shift(i, p)) == shift(i, quote_end(s, p)),
    decreases remaining(s, p),
{
    lemma_insert_index(s, i, c);
    if p < s.len() && s[p] != '"' {
        lemma_quote_end_shift(s, i, c, p + 1);
    }
}

/// A stretch of the text that does not hold position `i` reads the same
/// after the insertion.
proof fn lemma_subrange_shift(s: Seq<char>, i: int, c: char, a: int, b: int)
    requires
        blank_insertion(s, i, c),
        0 <= a <= b <= s.len(),
        b <= i || i < a,
    ensures
        insert_char(s, i, c).subrange(shift(i, a), shift(i, b)) == s.subrange(a, b),
{
    lemma_insert_index(s, i, c);
    let t = insert_char(s, i, c);
    assert forall|k: int| 0 <= k < b - a implies #[trigger] t.subrange(shift(i, a), shift(i, b))[k]
        == s.subrange(a, b)[k] by {
        assert(shift(i, a + k) == shift(i, a) + k);
    }
    assert(t.subrange(shift(i, a), shift(i, b)) =~= s.subrange(a, b));
}

/// Stepping past position `q` leads to scans that agree, also where `q` is
/// the whitespace before which the character went.
proof fn lemma_step_shift(s: Seq<char>, i: int, c: char, q: int, funcs: Seq<Seq<char>>, nested: bool)
    requires
        blank_insertion(s, i, c),
        0 <= q,
    ensures
        scan(insert_char(s, i, c), step_past(insert_char(s, i, c), shift(i, q)), funcs, nested)
            == scan(insert_char(s, i, c), shift(i, step_past(s, q)), funcs, nested),
{
    lemma_insert_index(s, i, c);
    let t = insert_char(s, i, c);
    if q == i {
        assert(t[i + 1] == c);
    }
}

proof fn lemma_scan_shift(s: Seq<char>, i: int, c: char, p: int, funcs: Seq<Seq<char>>, nested: bool)
    requires
        blank_insertion(s, i, c),
        0 <= p,
    ensures
        agree(i, scan(insert_char(s, i, c), shift(i, p), funcs, nested), scan(s, p, funcs, nested)),
    decreases remaining(s, p), 1int,
{
    let t = insert_char(s, i, c);
    lemma_insert_index(s, i, c);
    if p < s.len() {
        let ch = s[p];
        assert(t[shift(i, p)] == ch);
        if is_digit(ch) {
            let e = digits_end(s, p);
            lemma_digits_end(s, p);
            lemma_digits_end_shift(s, i, c, p);
            if p <= i {
                assert(e <= i) by {
                    if e > i {
                        assert(is_digit(s[i]));
                    }
                }
            }
            lemma_subrange_shift(s, i, c, p, e);
            lemma_step_shift(s, i, c, e, funcs, nested);
            lemma_scan_shift(s, i, c, step_past(s, e), funcs, nested);
        } else if ch == '"' {
            assert(p > i) by {
                if p <= i {
                    assert(s.subrange(0, i + 1)[p] == ch);
                }
            }
            let e = quote_end(s, p + 1);
            lemma_quote_end(s, p + 1);
            lemma_quote_end_shift(s, i, c, p + 1);
            lemma_subrange_shift(s, i, c, p + 1, e);
            lemma_step_shift(s, i, c, step_past(s, e), funcs, nested);
            lemma_scan_shift(s, i, c, step_past(s, step_past(s, e)), funcs, nested);
        } else if ch == '/' || ch == '-' || ch == '+' {
            assert(p != i);
            assert(shift(i, p) + 1 == shift(i, p + 1));
            lemma_scan_shift(s, i, c, p + 1, funcs, nested);
        } else if is_ws(ch) {
            lemma_step_shift(s, i, c, p, funcs, nested);
            lemma_scan_shift(s, i, c, p + 1, funcs, nested);
        } else {
            lemma_command_shift(s, i, c, p, funcs);
            match command(s, p, funcs) {
                Ok(r) => {
                    if r.tokens[0] != SpecToken::End {
                        let resume = if r.pos > p { r.pos } else { p };
                        lemma_step_shift(s, i, c, resume, r.funcs, nested);
                        lemma_scan_shift(s, i, c, step_past(s, resume), r.funcs, nested);
                    }
                },
                Err(_) => {},
            }
        }
    }
}

proof fn lemma_command_shift(s: Seq<char>, i: int, c: char, p: int, funcs: Seq<Seq<char>>)
    requires
        blank_insertion(s, i, c),
        0 <= p <= s.len(),
    ensures
        agree(i, command(insert_char(s, i, c), shift(i, p), funcs), command(s, p, funcs)),
    decreases remaining(s, p), 0int,
{
    lemma_insert_index(s, i, c);
    let st = skip_ws(s, p);
    let we = word_end(s, st);
    lemma_skip_ws(s, p);
    lemma_word_end(s, st);
    lemma_skip_ws_shift(s, i, c, p);
    lemma_word_end_shift(s, i, c, st);
    assert(we <= i || i < st) by {
        if st <= i < we {
            assert(!is_ws(s[i]));
        }
    }
    lemma_subrange_shift(s, i, c, st, we);
    let w = s.subrange(st, we);
    if w == kw_if() {
        assert(w.len() == 2);
        lemma_scan_shift(s, i, c, we, funcs, true);
    } else if w == kw_def() {
        assert(w.len() == 3);
        let ns = skip_ws(s, we);
        let ne = word_end(s, ns);
        lemma_skip_ws(s, we);
        lemma_word_end(s, ns);
        lemma_skip_ws_shift(s, i, c, we);
        lemma_word_end_shift(s, i, c, ns);
        assert(ne <= i || i < ns) by {
            if ns <= i < ne {
                assert(!is_ws(s[i]));
            }
        }
        lemma_subrange_shift(s, i, c, ns, ne);
        lemma_scan_shift(s, i, c, ne, funcs, true);
    }
}

/// Inserting a whitespace character right after whitespace that lies before
/// any double quote changes neither the tokens nor the failure.
pub proof fn law_extra_whitespace_changes_nothing(s: Seq<char>, i: int, c: char)
    requires
        blank_insertion(s, i, c),
    ensures
        tokenize_spec(insert_char(s, i, c)) == tokenize_spec(s),
{
    lemma_scan_shift(s, i, c, 0, seq![], false);
}

} // verus!
