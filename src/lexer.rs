//! The tokenizer: turns source text into a sequence of tokens with their
//! byte spans, skipping whitespace and comments.
//!
//! The rules are stated over the UTF-8 bytes of the source. At each position
//! the longest match wins, and between matches of equal length the earlier
//! rule: whitespace, block comment, line comment, keywords, integers,
//! symbols, string literals, identifiers; a character that starts none of
//! these is an error, and so is a block comment that is never closed.
use vstd::prelude::*;
use vstd::utf8::*;
use vstd::string::StringSliceAdditionalSpecFns;
use crate::text::{char_at, lemma_boundary_after_ascii, slice_text, starts_char};
use crate::token::{Span, Token, TokenV};

verus! {

/// A fatal lexical error.
#[derive(Debug, Clone, Copy, PartialEq, Eq, Structural)]
pub enum LexError {
    /// A run of digits whose value does not fit in an `i32`.
    IntegerOverflow(Span),
    /// A `/*` with no `*/` after it; the span runs to the end of the text.
    UnterminatedComment(Span),
    /// A character that starts no token.
    UnexpectedCharacter(char, Span),
}

/// The classes of bytes that tokens are made of runs of.
pub enum ByteClass {
    Space,
    Digit,
    Word,
    NotNewline,
}

pub open spec fn is_space(c: u8) -> bool {
    c == 32 || c == 9 || c == 13 || c == 10
}

pub open spec fn is_digit(c: u8) -> bool {
    48 <= c <= 57
}

pub open spec fn is_word_start(c: u8) -> bool {
    (65 <= c <= 90) || (97 <= c <= 122) || c == 95
}

pub open spec fn in_class(cl: ByteClass, c: u8) -> bool {
    match cl {
        ByteClass::Space => is_space(c),
        ByteClass::Digit => is_digit(c),
        ByteClass::Word => is_word_start(c) || is_digit(c),
        ByteClass::NotNewline => c != 10,
    }
}

/// The end of the longest run of bytes of class `cl` that starts at `i`.
pub open spec fn run_end(b: Seq<u8>, i: int, cl: ByteClass) -> int
    decreases b.len() - i,
{
    if 0 <= i < b.len() && in_class(cl, b[i]) {
        run_end(b, i + 1, cl)
    } else {
        i
    }
}

/// The first position at or after `i` where `*/` starts, or -1.
pub open spec fn close_at(b: Seq<u8>, i: int) -> int
    decreases b.len() - i,
{
    if 0 <= i && i + 1 < b.len() {
        if b[i] == 42 && b[i + 1] == 47 {
            i
        } else {
            close_at(b, i + 1)
        }
    } else {
        -1
    }
}

/// The last position in `[lo, hi)` that holds a double quote, or -1.
pub open spec fn last_quote(b: Seq<u8>, lo: int, hi: int) -> int
    decreases hi - lo,
{
    if lo < hi {
        if b[hi - 1] == 34 {
            hi - 1
        } else {
            last_quote(b, lo, hi - 1)
        }
    } else {
        -1
    }
}

/// The decimal value of the digits in `[lo, hi)`.
pub open spec fn digits_value(b: Seq<u8>, lo: int, hi: int) -> int
    decreases hi - lo,
{
    if lo < hi {
        digits_value(b, lo, hi - 1) * 10 + (b[hi - 1] - 48)
    } else {
        0
    }
}

/// The keyword that a whole word spells, if any.
pub open spec fn keyword(w: Seq<u8>) -> Option<TokenV> {
    if w == seq![112u8, 114, 105, 110, 116] {
        Some(TokenV::Print)
    } else if w == seq![116u8, 121, 112, 101, 111, 102] {
        Some(TokenV::Typeof)
    } else if w == seq![116u8, 114, 117, 101] {
        Some(TokenV::True)
    } else if w == seq![102u8, 97, 108, 115, 101] {
        Some(TokenV::False)
    } else if w == seq![101u8, 110, 118] {
        Some(TokenV::Env)
    } else {
        None
    }
}

/// The punctuation or operator token at `p` and its length in bytes; a
/// two-byte operator is preferred over its one-byte prefix.
pub open spec fn symbol(b: Seq<u8>, p: int) -> Option<(TokenV, int)> {
    let c = b[p];
    let eq_next = p + 1 < b.len() && b[p + 1] == 61;
    if c == 62 && eq_next {
        Some((TokenV::Ge, 2))
    } else if c == 60 && eq_next {
        Some((TokenV::Le, 2))
    } else if c == 61 && eq_next {
        Some((TokenV::Eq, 2))
    } else if c == 33 && eq_next {
        Some((TokenV::Ne, 2))
    } else if c == 91 {
        Some((TokenV::LeftBracket, 1))
    } else if c == 93 {
        Some((TokenV::RightBracket, 1))
    } else if c == 123 {
        Some((TokenV::LeftBrace, 1))
    } else if c == 125 {
        Some((TokenV::RightBrace, 1))
    } else if c == 44 {
        Some((TokenV::Comma, 1))
    } else if c == 61 {
        Some((TokenV::Equals, 1))
    } else if c == 43 {
        Some((TokenV::Plus, 1))
    } else if c == 45 {
        Some((TokenV::Minus, 1))
    } else if c == 42 {
        Some((TokenV::Star, 1))
    } else if c == 47 {
        Some((TokenV::Slash, 1))
    } else if c == 40 {
        Some((TokenV::LeftParen, 1))
    } else if c == 41 {
        Some((TokenV::RightParen, 1))
    } else if c == 59 {
        Some((TokenV::Semi, 1))
    } else if c == 33 {
        Some((TokenV::Bang, 1))
    } else if c == 62 {
        Some((TokenV::Gt, 1))
    } else if c == 60 {
        Some((TokenV::Lt, 1))
    } else if c == 46 {
        Some((TokenV::Dot, 1))
    } else {
        None
    }
}

/// What the tokenizer does at one position.
pub enum Step {
    /// No input is left.
    End,
    /// Whitespace or a comment, which ends where given.
    Skip(int),
    /// A token, which ends where given.
    Emit(TokenV, int),
    /// A fatal error.
    Fail(LexError),
}

pub open spec fn span_of(lo: int, hi: int) -> Span {
    Span(lo as usize, hi as usize)
}

/// The text of `[lo, hi)` as characters.
pub open spec fn text_of(b: Seq<u8>, lo: int, hi: int) -> Seq<char> {
    decode_utf8(b.subrange(lo, hi))
}

/// The rule that applies at position `p` of the source bytes `b`.
pub open spec fn step(b: Seq<u8>, p: int) -> Step {
    if p < 0 || p >= b.len() {
        Step::End
    } else {
        let c = b[p];
        let next = if p + 1 < b.len() { b[p + 1] } else { 0 };
        if is_space(c) {
            Step::Skip(run_end(b, p, ByteClass::Space))
        } else if c == 47 && next == 42 {
            if close_at(b, p + 2) >= 0 {
                Step::Skip(close_at(b, p + 2) + 2)
            } else {
                Step::Fail(LexError::UnterminatedComment(span_of(p, b.len() as int)))
            }
        } else if c == 47 && next == 47 {
            Step::Skip(run_end(b, p + 2, ByteClass::NotNewline))
        } else if is_word_start(c) {
            let e = run_end(b, p, ByteClass::Word);
            match keyword(b.subrange(p, e)) {
                Some(k) => Step::Emit(k, e),
                None => Step::Emit(TokenV::Ident(text_of(b, p, e)), e),
            }
        } else if is_digit(c) {
            let e = run_end(b, p, ByteClass::Digit);
            let v = digits_value(b, p, e);
            if v <= i32::MAX {
                Step::Emit(TokenV::Integer(v as i32), e)
            } else {
                Step::Fail(LexError::IntegerOverflow(span_of(p, e)))
            }
        } else if c == 34 && last_quote(b, p + 1, b.len() as int) >= 0 {
            let q = last_quote(b, p + 1, b.len() as int);
            Step::Emit(TokenV::String(text_of(b, p + 1, q)), q + 1)
        } else {
            match symbol(b, p) {
                Some((t, n)) => Step::Emit(t, p + n),
                None => {
                    let rest = b.subrange(p, b.len() as int);
                    Step::Fail(
                        LexError::UnexpectedCharacter(
                            decode_utf8(rest)[0],
                            span_of(p, p + length_of_first_scalar(rest)),
                        ),
                    )
                },
            }
        }
    }
}

pub proof fn lemma_run_end_bounds(b: Seq<u8>, i: int, cl: ByteClass)
    requires
        0 <= i <= b.len(),
    ensures
        i <= run_end(b, i, cl) <= b.len(),
        forall|k: int| i <= k < run_end(b, i, cl) ==> in_class(cl, #[trigger] b[k]),
        run_end(b, i, cl) == b.len() || !in_class(cl, b[run_end(b, i, cl)]),
    decreases b.len() - i,
{
    if i < b.len() && in_class(cl, b[i]) {
        lemma_run_end_bounds(b, i + 1, cl);
    }
}

pub proof fn lemma_close_at_bounds(b: Seq<u8>, i: int)
    requires
        0 <= i,
    ensures
        close_at(b, i) >= 0 ==> i <= close_at(b, i) && close_at(b, i) + 1 < b.len()
            && b[close_at(b, i)] == 42 && b[close_at(b, i) + 1] == 47,
    decreases b.len() - i,
{
    if i + 1 < b.len() && !(b[i] == 42 && b[i + 1] == 47) {
        lemma_close_at_bounds(b, i + 1);
    }
}

pub proof fn lemma_last_quote_bounds(b: Seq<u8>, lo: int, hi: int)
    requires
        0 <= lo,
        hi <= b.len(),
    ensures
        last_quote(b, lo, hi) >= 0 ==> lo <= last_quote(b, lo, hi) < hi
            && b[last_quote(b, lo, hi)] == 34,
        last_quote(b, lo, hi) < 0 ==> forall|k: int| lo <= k < hi ==> #[trigger] b[k] != 34,
        last_quote(b, lo, hi) >= 0 ==> forall|k: int|
            last_quote(b, lo, hi) < k < hi ==> #[trigger] b[k] != 34,
    decreases hi - lo,
{
    if lo < hi && b[hi - 1] != 34 {
        lemma_last_quote_bounds(b, lo, hi - 1);
    }
}

/// Every rule that skips or emits moves past at least one byte.
pub proof fn lemma_step_advances(b: Seq<u8>, p: int)
    ensures
        match step(b, p) {
            Step::Skip(e) => p < e <= b.len(),
            Step::Emit(_, e) => p < e <= b.len(),
            _ => true,
        },
{
    if 0 <= p < b.len() {
        lemma_run_end_bounds(b, p, ByteClass::Space);
        lemma_run_end_bounds(b, p, ByteClass::Word);
        lemma_run_end_bounds(b, p, ByteClass::Digit);
        if p + 2 <= b.len() {
            lemma_run_end_bounds(b, p + 2, ByteClass::NotNewline);
        }
        lemma_close_at_bounds(b, p + 2);
        lemma_last_quote_bounds(b, p + 1, b.len() as int);
    }
}

/// The next token at or after `p`, with its span, once whitespace and
/// comments are skipped; `None` at the end of the input.
pub open spec fn scan(b: Seq<u8>, p: int) -> Result<Option<(TokenV, int, int)>, LexError>
    decreases b.len() - p,
    via scan_decreases
{
    match step(b, p) {
        Step::End => Ok(None),
        Step::Skip(e) => scan(b, e),
        Step::Emit(t, e) => Ok(Some((t, p, e))),
        Step::Fail(err) => Err(err),
    }
}

#[via_fn]
proof fn scan_decreases(b: Seq<u8>, p: int) {
    lemma_step_advances(b, p);
}

/// A token found by `scan` lies at or after the position scanned from.
pub proof fn lemma_scan_advances(b: Seq<u8>, p: int)
    ensures
        scan(b, p) matches Ok(Some((_, lo, hi))) ==> p <= lo < hi <= b.len(),
    decreases b.len() - p,
{
    lemma_step_advances(b, p);
    if let Step::Skip(e) = step(b, p) {
        lemma_scan_advances(b, e);
    }
}

/// All the tokens from position `p` on, or the first lexical error.
pub open spec fn lex_from(b: Seq<u8>, p: int) -> Result<Seq<(TokenV, int, int)>, LexError>
    decreases b.len() - p,
    via lex_from_decreases
{
    match scan(b, p) {
        Ok(None) => Ok(seq![]),
        Ok(Some((t, lo, hi))) => match lex_from(b, hi) {
            Ok(rest) => Ok(seq![(t, lo, hi)] + rest),
            Err(e) => Err(e),
        },
        Err(e) => Err(e),
    }
}

#[via_fn]
proof fn lex_from_decreases(b: Seq<u8>, p: int) {
    lemma_scan_advances(b, p);
}

/// All the tokens of a source text, or the first lexical error.
pub open spec fn lex(s: Seq<char>) -> Result<Seq<(TokenV, int, int)>, LexError> {
    lex_from(encode_utf8(s), 0)
}

fn class_has(cl: &ByteClass, c: u8) -> (r: bool)
    ensures
        r == in_class(*cl, c),
{
    match cl {
        ByteClass::Space => c == 32 || c == 9 || c == 13 || c == 10,
        ByteClass::Digit => 48 <= c && c <= 57,
        ByteClass::Word => (65 <= c && c <= 90) || (97 <= c && c <= 122) || c == 95 || (48 <= c
            && c <= 57),
        ByteClass::NotNewline => c != 10,
    }
}

fn scan_run(b: &[u8], i: usize, cl: ByteClass) -> (r: usize)
    requires
        i <= b@.len(),
    ensures
        r == run_end(b@, i as int, cl),
        i <= r <= b@.len(),
        forall|k: int| i <= k < r ==> in_class(cl, #[trigger] b@[k]),
        r == b@.len() || !in_class(cl, b@[r as int]),
{
    let mut j: usize = i;
    while j < b.len() && class_has(&cl, b[j])
        invariant
            i <= j <= b@.len(),
            run_end(b@, j as int, cl) == run_end(b@, i as int, cl),
            forall|k: int| i <= k < j ==> in_class(cl, #[trigger] b@[k]),
        decreases b@.len() - j,
    {
        j = j + 1;
    }
    j
}

fn find_close(b: &[u8], i: usize) -> (r: Option<usize>)
    requires
        i <= b@.len(),
    ensures
        r is None <==> close_at(b@, i as int) < 0,
        r matches Some(j) ==> j == close_at(b@, i as int) && j + 2 <= b@.len(),
{
    proof {
        lemma_close_at_bounds(b@, i as int);
    }
    let mut j: usize = i;
    while b.len() - j > 1
        invariant
            i <= j <= b@.len(),
            close_at(b@, j as int) == close_at(b@, i as int),
        decreases b@.len() - j,
    {
        if b[j] == 42 && b[j + 1] == 47 {
            return Some(j);
        }
        j = j + 1;
    }
    None
}

fn find_last_quote(b: &[u8], lo: usize) -> (r: Option<usize>)
    requires
        lo <= b@.len(),
    ensures
        r is None <==> last_quote(b@, lo as int, b@.len() as int) < 0,
        r matches Some(q) ==> q == last_quote(b@, lo as int, b@.len() as int) && lo <= q
            < b@.len() && b@[q as int] == 34,
{
    proof {
        lemma_last_quote_bounds(b@, lo as int, b@.len() as int);
    }
    let mut hi: usize = b.len();
    while lo < hi
        invariant
            lo <= hi <= b@.len(),
            last_quote(b@, lo as int, hi as int) == last_quote(b@, lo as int, b@.len() as int),
        decreases hi - lo,
    {
        if b[hi - 1] == 34 {
            return Some(hi - 1);
        }
        hi = hi - 1;
    }
    None
}

proof fn lemma_digits_value_grows(b: Seq<u8>, lo: int, k: int, hi: int)
    requires
        lo <= k <= hi <= b.len(),
        0 <= lo,
        forall|j: int| lo <= j < hi ==> is_digit(#[trigger] b[j]),
    ensures
        digits_value(b, lo, k) <= digits_value(b, lo, hi),
        0 <= digits_value(b, lo, k),
    decreases hi - lo,
{
    if k < hi {
        lemma_digits_value_grows(b, lo, k, hi - 1);
        assert(is_digit(b[hi - 1]));
    } else if lo < k {
        lemma_digits_value_grows(b, lo, k - 1, k - 1);
        assert(is_digit(b[k - 1]));
    }
}

/// The value of the digits in `[lo, hi)`, or `None` where it exceeds `i32::MAX`.
fn digits_to_i32(b: &[u8], lo: usize, hi: usize) -> (r: Option<i32>)
    requires
        lo <= hi <= b@.len(),
        forall|j: int| lo <= j < hi ==> is_digit(#[trigger] b@[j]),
    ensures
        r is None <==> digits_value(b@, lo as int, hi as int) > i32::MAX,
        r matches Some(v) ==> v as int == digits_value(b@, lo as int, hi as int),
{
    let mut v: u64 = 0;
    let mut k: usize = lo;
    while k < hi
        invariant
            lo <= k <= hi <= b@.len(),
            forall|j: int| lo <= j < hi ==> is_digit(#[trigger] b@[j]),
            v as int == digits_value(b@, lo as int, k as int),
            v <= i32::MAX,
        decreases hi - k,
    {
        assert(is_digit(b@[k as int]));
        v = v * 10 + (b[k] - 48) as u64;
        k = k + 1;
        if v > 2147483647 {
            proof {
                lemma_digits_value_grows(b@, lo as int, k as int, hi as int);
            }
            return None;
        }
    }
    Some(v as i32)
}

fn keyword_of(b: &[u8], lo: usize, hi: usize) -> (r: Option<Token>)
    requires
        lo <= hi <= b@.len(),
    ensures
        r matches Some(t) ==> keyword(b@.subrange(lo as int, hi as int)) == Some(t@),
        r is None ==> keyword(b@.subrange(lo as int, hi as int)) is None,
{
    let w = Ghost(b@.subrange(lo as int, hi as int));
    let n = hi - lo;
    if n == 5 && b[lo] == 112 && b[lo + 1] == 114 && b[lo + 2] == 105 && b[lo + 3] == 110
        && b[lo + 4] == 116 {
        assert(w@ =~= seq![112u8, 114, 105, 110, 116]);
        return Some(Token::Print);
    }
    if n == 6 && b[lo] == 116 && b[lo + 1] == 121 && b[lo + 2] == 112 && b[lo + 3] == 101
        && b[lo + 4] == 111 && b[lo + 5] == 102 {
        assert(w@ =~= seq![116u8, 121, 112, 101, 111, 102]);
        return Some(Token::Typeof);
    }
    if n == 4 && b[lo] == 116 && b[lo + 1] == 114 && b[lo + 2] == 117 && b[lo + 3] == 101 {
        assert(w@ =~= seq![116u8, 114, 117, 101]);
        return Some(Token::True);
    }
    if n == 5 && b[lo] == 102 && b[lo + 1] == 97 && b[lo + 2] == 108 && b[lo + 3] == 115
        && b[lo + 4] == 101 {
        assert(w@ =~= seq![102u8, 97, 108, 115, 101]);
        return Some(Token::False);
    }
    if n == 3 && b[lo] == 101 && b[lo + 1] == 110 && b[lo + 2] == 118 {
        assert(w@ =~= seq![101u8, 110, 118]);
        return Some(Token::Env);
    }
    proof {
        if w@.len() == 5 {
            assert(w@[0] == b@[lo as int] && w@[1] == b@[lo + 1] && w@[2] == b@[lo + 2]);
            assert(w@[3] == b@[lo + 3] && w@[4] == b@[lo + 4]);
        }
        if w@.len() == 6 {
            assert(w@[0] == b@[lo as int] && w@[1] == b@[lo + 1] && w@[2] == b@[lo + 2]);
            assert(w@[3] == b@[lo + 3] && w@[4] == b@[lo + 4] && w@[5] == b@[lo + 5]);
        }
        if w@.len() == 4 {
            assert(w@[0] == b@[lo as int] && w@[1] == b@[lo + 1] && w@[2] == b@[lo + 2]);
            assert(w@[3] == b@[lo + 3]);
        }
        if w@.len() == 3 {
            assert(w@[0] == b@[lo as int] && w@[1] == b@[lo + 1] && w@[2] == b@[lo + 2]);
        }
    }
    None
}

fn symbol_at(b: &[u8], p: usize) -> (r: Option<(Token, usize)>)
    requires
        p < b@.len(),
    ensures
        r matches Some((t, n)) ==> symbol(b@, p as int) == Some((t@, n as int)),
        r is None ==> symbol(b@, p as int) is None,
{
    let c = b[p];
    let eq_next = p + 1 < b.len() && b[p + 1] == 61;
    if c == 62 && eq_next {
        Some((Token::Ge, 2))
    } else if c == 60 && eq_next {
        Some((Token::Le, 2))
    } else if c == 61 && eq_next {
        Some((Token::Eq, 2))
    } else if c == 33 && eq_next {
        Some((Token::Ne, 2))
    } else if c == 91 {
        Some((Token::LeftBracket, 1))
    } else if c == 93 {
        Some((Token::RightBracket, 1))
    } else if c == 123 {
        Some((Token::LeftBrace, 1))
    } else if c == 125 {
        Some((Token::RightBrace, 1))
    } else if c == 44 {
        Some((Token::Comma, 1))
    } else if c == 61 {
        Some((Token::Equals, 1))
    } else if c == 43 {
        Some((Token::Plus, 1))
    } else if c == 45 {
        Some((Token::Minus, 1))
    } else if c == 42 {
        Some((Token::Star, 1))
    } else if c == 47 {
        Some((Token::Slash, 1))
    } else if c == 40 {
        Some((Token::LeftParen, 1))
    } else if c == 41 {
        Some((Token::RightParen, 1))
    } else if c == 59 {
        Some((Token::Semi, 1))
    } else if c == 33 {
        Some((Token::Bang, 1))
    } else if c == 62 {
        Some((Token::Gt, 1))
    } else if c == 60 {
        Some((Token::Lt, 1))
    } else if c == 46 {
        Some((Token::Dot, 1))
    } else {
        None
    }
}

pub open spec fn emitted(t: TokenV, lo: int, hi: int) -> Result<
    Option<(TokenV, int, int)>,
    LexError,
> {
    Ok(Some((t, lo, hi)))
}

/// `x` followed by the tokens of `rest`, or the error that `rest` holds.
pub open spec fn prepend(x: (TokenV, int, int), rest: Result<Seq<(TokenV, int, int)>, LexError>) -> Result<
    Seq<(TokenV, int, int)>,
    LexError,
> {
    match rest {
        Ok(s) => Ok(seq![x] + s),
        Err(e) => Err(e),
    }
}

/// The view of what one call of `Lexer::next` returns.
pub open spec fn next_view(r: Result<Option<(Token, Span)>, LexError>) -> Result<
    Option<(TokenV, int, int)>,
    LexError,
> {
    match r {
        Ok(Some((t, sp))) => Ok(Some((t@, sp.0 as int, sp.1 as int))),
        Ok(None) => Ok(None),
        Err(e) => Err(e),
    }
}

/// The view of a sequence of tokens with their spans.
pub open spec fn tokens_view(v: Seq<(Token, Span)>) -> Seq<(TokenV, int, int)> {
    v.map_values(|x: (Token, Span)| (x.0@, x.1.0 as int, x.1.1 as int))
}

/// A cursor over a source text that hands out one token at a time.
pub struct Lexer<'a> {
    source: &'a str,
    pos: usize,
}

impl<'a> Lexer<'a> {
    /// The source text.
    pub closed spec fn text(&self) -> Seq<char> {
        self.source@
    }

    /// The byte position up to which the source has been consumed.
    pub closed spec fn position(&self) -> int {
        self.pos as int
    }

    /// The tokens that the calls of `next` from here on hand out, in order,
    /// or the lexical error that stops them.
    pub open spec fn remaining(&self) -> Result<Seq<(TokenV, int, int)>, LexError> {
        lex_from(encode_utf8(self.text()), self.position())
    }

    /// The cursor lies within the source, at the start of a character.
    pub closed spec fn wf(&self) -> bool {
        starts_char(self.source.spec_bytes(), self.pos as int)
    }

    pub fn new(s: &'a str) -> (r: Lexer<'a>)
        ensures
            r.text() == s@,
            r.position() == 0,
            r.wf(),
            r.remaining() == lex(s@),
    {
        proof {
            vstd::utf8::encode_utf8_valid_utf8(s@);
            reveal_with_fuel(valid_utf8, 2);
            if s.spec_bytes().len() > 0 {
                assert(valid_first_scalar(s.spec_bytes()));
            }
        }
        Lexer { source: s, pos: 0 }
    }

    /// The next token and its span, skipping whitespace and comments; `None`
    /// once the input is used up.
    pub fn next(&mut self) -> (r: Result<Option<(Token, Span)>, LexError>)
        requires
            old(self).wf(),
        ensures
            final(self).wf(),
            final(self).text() == old(self).text(),
            next_view(r) == scan(encode_utf8(old(self).text()), old(self).position()),
            r matches Ok(Some((_, sp))) ==> final(self).position() == sp.1,
            r matches Ok(None) ==> final(self).position() == encode_utf8(old(self).text()).len(),
            old(self).remaining() == match r {
                Ok(Some((t, sp))) => prepend((t@, sp.0 as int, sp.1 as int), final(self).remaining()),
                Ok(None) => Ok(seq![]),
                Err(e) => Err(e),
            },
    {
        let b = self.source.as_bytes();
        let ghost bs = b@;
        let ghost start = self.pos as int;
        proof {
            vstd::utf8::encode_utf8_valid_utf8(self.source@);
        }
        loop
            invariant
                self.source == old(self).source,
                b@ == bs,
                bs == self.source.spec_bytes(),
                valid_utf8(bs),
                self.wf(),
                scan(bs, self.pos as int) == scan(bs, start),
                bs == encode_utf8(old(self).text()),
                start == old(self).position(),
            decreases bs.len() - self.pos,
        {
            let p = self.pos;
            if p >= b.len() {
                return Ok(None);
            }
            proof {
                lemma_step_advances(bs, p as int);
            }
            let c = b[p];
            let next: u8 = if p + 1 < b.len() {
                b[p + 1]
            } else {
                0
            };
            if c == 32 || c == 9 || c == 13 || c == 10 {
                let e = scan_run(b, p, ByteClass::Space);
                proof {
                    lemma_boundary_after_ascii(bs, e as int);
                }
                self.pos = e;
                continue ;
            }
            if c == 47 && next == 42 {
                if let Some(j) = find_close(b, p + 2) {
                    proof {
                        lemma_close_at_bounds(bs, p + 2);
                        lemma_boundary_after_ascii(bs, j + 2);
                    }
                    self.pos = j + 2;
                    continue ;
                }
                return Err(LexError::UnterminatedComment(Span(p, b.len())));
            }
            if c == 47 && next == 47 {
                let e = scan_run(b, p + 2, ByteClass::NotNewline);
                self.pos = e;
                continue ;
            }
            if (65 <= c && c <= 90) || (97 <= c && c <= 122) || c == 95 {
                let e = scan_run(b, p, ByteClass::Word);
                proof {
                    lemma_boundary_after_ascii(bs, e as int);
                }
                self.pos = e;
                match keyword_of(b, p, e) {
                    Some(t) => {
                        assert(scan(bs, p as int) == emitted(t@, p as int, e as int));
                        return Ok(Some((t, Span(p, e))));
                    },
                    None => {
                        let name = slice_text(self.source, p, e);
                        assert(scan(bs, p as int) == emitted(
                            TokenV::Ident(name@),
                            p as int,
                            e as int,
                        ));
                        return Ok(Some((Token::Ident(name), Span(p, e))));
                    },
                }
            }
            if 48 <= c && c <= 57 {
                let e = scan_run(b, p, ByteClass::Digit);
                proof {
                    lemma_boundary_after_ascii(bs, e as int);
                }
                match digits_to_i32(b, p, e) {
                    Some(v) => {
                        self.pos = e;
                        assert(scan(bs, p as int) == emitted(
                            TokenV::Integer(v),
                            p as int,
                            e as int,
                        ));
                        return Ok(Some((Token::Integer(v), Span(p, e))));
                    },
                    None => {
                        assert(step(bs, p as int) == Step::Fail(
                            LexError::IntegerOverflow(Span(p, e)),
                        ));
                        return Err(LexError::IntegerOverflow(Span(p, e)));
                    },
                }
            }
            if c == 34 {
                if let Some(q) = find_last_quote(b, p + 1) {
                    proof {
                        lemma_boundary_after_ascii(bs, p + 1);
                        lemma_boundary_after_ascii(bs, q + 1);
                    }
                    let contents = slice_text(self.source, p + 1, q);
                    self.pos = q + 1;
                    assert(scan(bs, p as int) == emitted(
                        TokenV::String(contents@),
                        p as int,
                        q + 1,
                    ));
                    return Ok(Some((Token::String(contents), Span(p, q + 1))));
                }
            }
            match symbol_at(b, p) {
                Some((t, n)) => {
                    proof {
                        lemma_boundary_after_ascii(bs, p + n);
                    }
                    self.pos = p + n;
                    assert(scan(bs, p as int) == emitted(t@, p as int, p + n));
                    return Ok(Some((t, Span(p, p + n))));
                },
                None => {
                    let (ch, w) = char_at(self.source, p);
                    assert(step(bs, p as int) == Step::Fail(
                        LexError::UnexpectedCharacter(ch, Span(p, (p + w) as usize)),
                    ));
                    return Err(LexError::UnexpectedCharacter(ch, Span(p, p + w)));
                },
            }
        }
    }
}

/// Splits a whole source text into tokens with their spans, or reports the
/// first lexical error.
pub fn tokenize(s: &str) -> (r: Result<Vec<(Token, Span)>, LexError>)
    ensures
        match r {
            Ok(v) => lex(s@) == Ok::<Seq<(TokenV, int, int)>, LexError>(tokens_view(v@)),
            Err(e) => lex(s@) == Err::<Seq<(TokenV, int, int)>, LexError>(e),
        },
{
    let mut lexer = Lexer::new(s);
    let mut out: Vec<(Token, Span)> = Vec::new();
    let ghost bs = encode_utf8(s@);
    loop
        invariant
            lexer.wf(),
            lexer.text() == s@,
            bs == encode_utf8(s@),
            0 <= lexer.position() <= bs.len(),
            lex(s@) == match lex_from(bs, lexer.position()) {
                Ok(rest) => Ok(tokens_view(out@) + rest),
                Err(e) => Err(e),
            },
        decreases bs.len() - lexer.position(),
    {
        let ghost p = lexer.position();
        proof {
            lemma_scan_advances(bs, p);
        }
        let r = lexer.next();
        match r {
            Ok(None) => {
                assert(scan(bs, p) == Ok::<Option<(TokenV, int, int)>, LexError>(None));
                assert(lex_from(bs, p) == Ok::<Seq<(TokenV, int, int)>, LexError>(seq![]));
                assert(tokens_view(out@) + seq![] =~= tokens_view(out@));
                return Ok(out);
            },
            Ok(Some(t)) => {
                let ghost old_out = out@;
                out.push(t);
                proof {
                    assert(tokens_view(out@) =~= tokens_view(old_out) + seq![
                        (t.0@, t.1.0 as int, t.1.1 as int),
                    ]);
                    if let Ok(rest) = lex_from(bs, lexer.position()) {
                        assert(tokens_view(out@) + rest =~= tokens_view(old_out) + (seq![
                            (t.0@, t.1.0 as int, t.1.1 as int),
                        ] + rest));
                    }
                }
            },
            Err(e) => {
                assert(scan(bs, p) == Err::<Option<(TokenV, int, int)>, LexError>(e));
                assert(lex_from(bs, p) == Err::<Seq<(TokenV, int, int)>, LexError>(e));
                return Err(e);
            },
        }
    }
}

/// The decimal digits of `n`, as bytes, without leading zeros.
pub open spec fn decimal_digits(n: nat) -> Seq<u8>
    decreases n,
{
    if n < 10 {
        seq![(48 + n) as u8]
    } else {
        decimal_digits(n / 10).push((48 + n % 10) as u8)
    }
}

proof fn lemma_decimal_digits_shape(n: nat)
    ensures
        decimal_digits(n).len() >= 1,
        forall|k: int| 0 <= k < decimal_digits(n).len() ==> is_digit(#[trigger] decimal_digits(n)[k]),
        digits_value(decimal_digits(n), 0, decimal_digits(n).len() as int) == n,
    decreases n,
{
    let b = decimal_digits(n);
    if n >= 10 {
        let prefix = decimal_digits(n / 10);
        let d = (48 + n % 10) as u8;
        lemma_decimal_digits_shape(n / 10);
        lemma_digits_value_prefix(prefix, d, prefix.len() as int);
        assert(b == prefix.push(d));
        assert(b[prefix.len() as int] == d);
        assert(d - 48 == n % 10);
        assert(digits_value(b, 0, b.len() as int) == digits_value(b, 0, prefix.len() as int) * 10
            + (n % 10));
        assert(n == (n / 10) * 10 + n % 10);
    } else {
        assert(digits_value(b, 0, 0) == 0);
        assert(b[0] - 48 == n);
    }
}

proof fn lemma_digits_value_prefix(s: Seq<u8>, x: u8, hi: int)
    requires
        0 <= hi <= s.len(),
    ensures
        digits_value(s.push(x), 0, hi) == digits_value(s, 0, hi),
    decreases hi,
{
    if hi > 0 {
        lemma_digits_value_prefix(s, x, hi - 1);
    }
}

/// The decimal text of a number `n` is one integer token of value `n` when
/// `n` fits in an `i32`, and an overflow error covering the text otherwise.
pub proof fn lemma_decimal_is_one_integer(s: Seq<char>, n: nat)
    requires
        encode_utf8(s) == decimal_digits(n),
    ensures
        n <= i32::MAX ==> lex(s) == Ok::<Seq<(TokenV, int, int)>, LexError>(
            seq![(TokenV::Integer(n as i32), 0int, decimal_digits(n).len() as int)],
        ),
        n > i32::MAX ==> lex(s) == Err::<Seq<(TokenV, int, int)>, LexError>(
            LexError::IntegerOverflow(span_of(0, decimal_digits(n).len() as int)),
        ),
{
    let b = decimal_digits(n);
    lemma_decimal_digits_shape(n);
    lemma_run_end_bounds(b, 0, ByteClass::Digit);
    assert(run_end(b, 0, ByteClass::Digit) == b.len());
    assert(is_digit(b[0]));
    if n <= i32::MAX {
        assert(step(b, b.len() as int) == Step::End);
        assert(lex_from(b, b.len() as int) == Ok::<Seq<(TokenV, int, int)>, LexError>(seq![]));
        let single = seq![(TokenV::Integer(n as i32), 0int, b.len() as int)];
        assert(single + seq![] =~= single);
    }
}

/// A two-byte operator (`>=`, `<=`, `==`, `!=`) is one token wherever a
/// token starts with it, never its one-byte prefix followed by `=`.
pub proof fn lemma_two_byte_operator(b: Seq<u8>, p: int)
    requires
        0 <= p,
        p + 1 < b.len(),
        b[p] == 62 || b[p] == 60 || b[p] == 61 || b[p] == 33,
        b[p + 1] == 61,
    ensures
        step(b, p) == Step::Emit(
            if b[p] == 62 {
                TokenV::Ge
            } else if b[p] == 60 {
                TokenV::Le
            } else if b[p] == 61 {
                TokenV::Eq
            } else {
                TokenV::Ne
            },
            p + 2,
        ),
{
}

/// What a one-byte operator token says about the bytes it was read from:
/// an `=` token starts with `=`, and a `>`, `<`, `=` or `!` token is one
/// byte long and not followed by `=`.
proof fn lemma_one_byte_operator(b: Seq<u8>, p: int)
    ensures
        step(b, p) matches Step::Emit(t, e) ==> {
            &&& (t is Equals ==> b[p] == 61)
            &&& ((t is Gt || t is Lt || t is Equals || t is Bang) ==> e == p + 1 && !(p + 1
                < b.len() && b[p + 1] == 61))
        },
{
    if 0 <= p < b.len() && is_word_start(b[p]) {
        let e = run_end(b, p, ByteClass::Word);
        let w = b.subrange(p, e);
        assert(keyword(w) is None || keyword(w) == Some(TokenV::Print) || keyword(w) == Some(
            TokenV::Typeof,
        ) || keyword(w) == Some(TokenV::True) || keyword(w) == Some(TokenV::False) || keyword(w)
            == Some(TokenV::Env));
    }
}

/// The token that `scan` finds is what the rule at its start emits.
proof fn lemma_scan_emits(b: Seq<u8>, p: int)
    ensures
        scan(b, p) matches Ok(Some((t, lo, hi))) ==> step(b, lo) == Step::Emit(t, hi),
    decreases b.len() - p,
{
    lemma_step_advances(b, p);
    if let Step::Skip(e) = step(b, p) {
        lemma_scan_emits(b, e);
    }
}

proof fn lemma_lex_from_emits(b: Seq<u8>, p: int)
    ensures
        lex_from(b, p) matches Ok(toks) ==> forall|k: int|
            0 <= k < toks.len() ==> step(b, #[trigger] toks[k].1) == Step::Emit(
                toks[k].0,
                toks[k].2,
            ),
    decreases b.len() - p,
{
    lemma_scan_advances(b, p);
    lemma_scan_emits(b, p);
    if let Ok(Some((t, lo, hi))) = scan(b, p) {
        lemma_lex_from_emits(b, hi);
        if let Ok(rest) = lex_from(b, hi) {
            let toks = seq![(t, lo, hi)] + rest;
            assert forall|k: int| 0 <= k < toks.len() implies step(b, #[trigger] toks[k].1)
                == Step::Emit(toks[k].0, toks[k].2) by {
                if k > 0 {
                    assert(toks[k] == rest[k - 1]);
                }
            }
        }
    }
}

/// In the whole token sequence of a text, a `>`, `<`, `=` or `!` token is
/// never directly followed by an `=` token: `>=`, `<=`, `==` and `!=` are
/// always read as one token.
pub proof fn lemma_two_byte_operators_never_split(s: Seq<char>)
    ensures
        lex(s) matches Ok(toks) ==> forall|k: int|
            0 <= k && k + 1 < toks.len() && toks[k + 1].1 == toks[k].2 && (toks[k].0 is Gt
                || toks[k].0 is Lt || toks[k].0 is Equals || toks[k].0 is Bang) ==> !(#[trigger] toks[k
                + 1].0 is Equals),
{
    let b = encode_utf8(s);
    lemma_lex_from_emits(b, 0);
    if let Ok(toks) = lex(s) {
        assert forall|k: int|
            0 <= k && k + 1 < toks.len() && toks[k + 1].1 == toks[k].2 && (toks[k].0 is Gt
                || toks[k].0 is Lt || toks[k].0 is Equals || toks[k].0 is Bang) implies !(
        #[trigger] toks[k + 1].0 is Equals) by {
            assert(step(b, toks[k].1) == Step::Emit(toks[k].0, toks[k].2));
            assert(step(b, toks[k + 1].1) == Step::Emit(toks[k + 1].0, toks[k + 1].2));
            lemma_one_byte_operator(b, toks[k].1);
            lemma_one_byte_operator(b, toks[k + 1].1);
            lemma_step_advances(b, toks[k + 1].1);
        }
    }
}

} // verus!
