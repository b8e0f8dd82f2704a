//! What lies between tokens: whitespace, line comments and block comments,
//! described on their own terms, and what the tokenizer does with them.
use vstd::prelude::*;
use vstd::utf8::*;
use crate::lexer::{
    close_at, is_space, lemma_close_at_bounds, lemma_run_end_bounds, lemma_scan_advances,
    lemma_step_advances, lex, lex_from, run_end, scan, step, ByteClass, LexError, Step,
};
use crate::token::TokenV;

verus! {

/// `b[i..hi]` consists of whitespace, `//` comments that run to the end of
/// their line, and closed `/* */` comments, only.
pub open spec fn trivia(b: Seq<u8>, i: int, hi: int) -> bool
    decreases hi - i, 0int,
{
    if i < 0 || i >= hi || hi > b.len() {
        i >= hi
    } else if is_space(b[i]) {
        trivia(b, i + 1, hi)
    } else if b[i] == 47 && i + 1 < hi && b[i + 1] == 47 {
        line_rest(b, i + 2, hi)
    } else if b[i] == 47 && i + 1 < hi && b[i + 1] == 42 {
        block_rest(b, i + 2, hi)
    } else {
        false
    }
}

/// Inside a line comment at `j`: the comment ends at the next newline, and
/// trivia follows.
pub open spec fn line_rest(b: Seq<u8>, j: int, hi: int) -> bool
    decreases hi - j, 1int,
{
    if j < 0 || j >= hi || hi > b.len() {
        j >= hi
    } else if b[j] == 10 {
        trivia(b, j, hi)
    } else {
        line_rest(b, j + 1, hi)
    }
}

/// Inside a block comment at `j`: the comment ends at the next `*/`, and
/// trivia follows.
pub open spec fn block_rest(b: Seq<u8>, j: int, hi: int) -> bool
    decreases hi - j, 1int,
{
    if j < 0 || j + 1 >= hi || hi > b.len() {
        false
    } else if b[j] == 42 && b[j + 1] == 47 {
        trivia(b, j + 2, hi)
    } else {
        block_rest(b, j + 1, hi)
    }
}

proof fn lemma_space_run_trivia(b: Seq<u8>, k: int, e: int, hi: int)
    requires
        0 <= k <= e <= hi <= b.len(),
        forall|m: int| k <= m < e ==> is_space(#[trigger] b[m]),
        trivia(b, e, hi),
    ensures
        trivia(b, k, hi),
    decreases e - k,
{
    if k < e {
        lemma_space_run_trivia(b, k + 1, e, hi);
    }
}

proof fn lemma_line_run_rest(b: Seq<u8>, j: int, hi: int)
    requires
        0 <= j <= b.len(),
        run_end(b, j, ByteClass::NotNewline) <= hi <= b.len(),
        trivia(b, run_end(b, j, ByteClass::NotNewline), hi),
    ensures
        line_rest(b, j, hi),
    decreases b.len() - j,
{
    lemma_run_end_bounds(b, j, ByteClass::NotNewline);
    if j < b.len() && b[j] != 10 {
        lemma_line_run_rest(b, j + 1, hi);
    }
}

proof fn lemma_block_run_rest(b: Seq<u8>, j: int, hi: int)
    requires
        0 <= j,
        close_at(b, j) >= 0,
        close_at(b, j) + 2 <= hi <= b.len(),
        trivia(b, close_at(b, j) + 2, hi),
    ensures
        block_rest(b, j, hi),
    decreases b.len() - j,
{
    lemma_close_at_bounds(b, j);
    if !(b[j] == 42 && b[j + 1] == 47) {
        lemma_block_run_rest(b, j + 1, hi);
    }
}

/// A step that skips from `p` to `e` skips trivia.
proof fn lemma_skip_is_trivia(b: Seq<u8>, p: int, e: int, hi: int)
    requires
        step(b, p) == Step::Skip(e),
        e <= hi <= b.len(),
        trivia(b, e, hi),
    ensures
        trivia(b, p, hi),
{
    lemma_step_advances(b, p);
    lemma_run_end_bounds(b, p, ByteClass::Space);
    let next = if p + 1 < b.len() {
        b[p + 1]
    } else {
        0
    };
    if is_space(b[p]) {
        lemma_space_run_trivia(b, p, e, hi);
    } else if b[p] == 47 && next == 42 && close_at(b, p + 2) >= 0 {
        lemma_close_at_bounds(b, p + 2);
        lemma_block_run_rest(b, p + 2, hi);
    } else {
        lemma_run_end_bounds(b, p + 2, ByteClass::NotNewline);
        lemma_line_run_rest(b, p + 2, hi);
    }
}

/// Everything that `scan` passes over before the token it finds, or before
/// the end, is trivia.
pub proof fn lemma_scan_gap_is_trivia(b: Seq<u8>, p: int)
    requires
        0 <= p <= b.len(),
    ensures
        scan(b, p) matches Ok(Some((_, lo, _))) ==> trivia(b, p, lo),
        scan(b, p) matches Ok(None) ==> trivia(b, p, b.len() as int),
    decreases b.len() - p,
{
    lemma_step_advances(b, p);
    match step(b, p) {
        Step::Skip(e) => {
            lemma_scan_gap_is_trivia(b, e);
            lemma_scan_advances(b, e);
            match scan(b, e) {
                Ok(Some((_, lo, _))) => lemma_skip_is_trivia(b, p, e, lo),
                Ok(None) => lemma_skip_is_trivia(b, p, e, b.len() as int),
                Err(_) => {},
            }
        },
        _ => {},
    }
}

proof fn lemma_line_rest_skips(b: Seq<u8>, j: int)
    requires
        0 <= j <= b.len(),
        line_rest(b, j, b.len() as int),
    ensures
        trivia(b, run_end(b, j, ByteClass::NotNewline), b.len() as int),
    decreases b.len() - j,
{
    if j < b.len() && b[j] != 10 {
        lemma_line_rest_skips(b, j + 1);
    }
}

proof fn lemma_block_rest_skips(b: Seq<u8>, j: int)
    requires
        0 <= j,
        block_rest(b, j, b.len() as int),
    ensures
        close_at(b, j) >= 0,
        trivia(b, close_at(b, j) + 2, b.len() as int),
    decreases b.len() - j,
{
    if !(b[j] == 42 && b[j + 1] == 47) {
        lemma_block_rest_skips(b, j + 1);
    }
}

/// From a position where only trivia remains, `scan` finds no token.
pub proof fn lemma_trivia_scans_empty(b: Seq<u8>, p: int)
    requires
        0 <= p <= b.len(),
        trivia(b, p, b.len() as int),
    ensures
        scan(b, p) == Ok::<Option<(TokenV, int, int)>, LexError>(None),
    decreases b.len() - p,
{
    if p < b.len() {
        lemma_step_advances(b, p);
        let next = if p + 1 < b.len() {
            b[p + 1]
        } else {
            0
        };
        if is_space(b[p]) {
            lemma_run_end_bounds(b, p, ByteClass::Space);
            let e = run_end(b, p, ByteClass::Space);
            assert forall|k: int| p < k <= e implies trivia(b, k, b.len() as int) by {
                lemma_space_suffix(b, p, k);
            }
            lemma_trivia_scans_empty(b, e);
        } else if b[p] == 47 && next == 47 {
            lemma_line_rest_skips(b, p + 2);
            lemma_run_end_bounds(b, p + 2, ByteClass::NotNewline);
            lemma_trivia_scans_empty(b, run_end(b, p + 2, ByteClass::NotNewline));
        } else {
            lemma_block_rest_skips(b, p + 2);
            lemma_close_at_bounds(b, p + 2);
            lemma_trivia_scans_empty(b, close_at(b, p + 2) + 2);
        }
    }
}

proof fn lemma_space_suffix(b: Seq<u8>, p: int, k: int)
    requires
        0 <= p < k <= run_end(b, p, ByteClass::Space),
        run_end(b, p, ByteClass::Space) <= b.len(),
        trivia(b, p, b.len() as int),
    ensures
        trivia(b, k, b.len() as int),
    decreases k - p,
{
    lemma_run_end_bounds(b, p, ByteClass::Space);
    assert(is_space(b[p]));
    if p + 1 < k {
        lemma_space_suffix(b, p + 1, k);
    }
}

/// Text made only of whitespace and comments yields no tokens.
pub proof fn lemma_trivia_yields_no_tokens(s: Seq<char>)
    requires
        trivia(encode_utf8(s), 0, encode_utf8(s).len() as int),
    ensures
        lex(s) == Ok::<Seq<(TokenV, int, int)>, LexError>(seq![]),
{
    lemma_trivia_scans_empty(encode_utf8(s), 0);
}

/// Where the gap before the `k`-th token starts: at `p` for the first, and
/// where the previous token ends for the others; for `k == toks.len()`,
/// the gap after the last token.
pub open spec fn gap_start(toks: Seq<(TokenV, int, int)>, k: int, p: int) -> int {
    if k == 0 {
        p
    } else {
        toks[k - 1].2
    }
}

/// The tokens from `p` on are laid out in order, and the source is their
/// texts with only trivia before, between and after them.
pub open spec fn laid_out(b: Seq<u8>, p: int, toks: Seq<(TokenV, int, int)>) -> bool {
    &&& forall|k: int|
        0 <= k < toks.len() ==> gap_start(toks, k, p) <= #[trigger] toks[k].1 < toks[k].2 && trivia(
            b,
            gap_start(toks, k, p),
            toks[k].1,
        )
    &&& trivia(b, gap_start(toks, toks.len() as int, p), b.len() as int)
}

proof fn lemma_lex_from_laid_out(b: Seq<u8>, p: int)
    requires
        0 <= p <= b.len(),
    ensures
        lex_from(b, p) matches Ok(toks) ==> laid_out(b, p, toks),
    decreases b.len() - p,
{
    lemma_scan_advances(b, p);
    lemma_scan_gap_is_trivia(b, p);
    if let Ok(Some((t, lo, hi))) = scan(b, p) {
        lemma_lex_from_laid_out(b, hi);
        if let Ok(rest) = lex_from(b, hi) {
            let toks = seq![(t, lo, hi)] + rest;
            assert forall|k: int| 1 <= k <= toks.len() implies gap_start(toks, k, p) == gap_start(
                rest,
                k - 1,
                hi,
            ) && (k < toks.len() ==> toks[k] == rest[k - 1]) by {}
            assert forall|k: int| 0 <= k < toks.len() implies gap_start(toks, k, p)
                <= #[trigger] toks[k].1 < toks[k].2 && trivia(
                b,
                gap_start(toks, k, p),
                toks[k].1,
            ) by {
                if k > 0 {
                    assert(toks[k] == rest[k - 1]);
                }
            }
            assert(gap_start(toks, toks.len() as int, p) == gap_start(
                rest,
                rest.len() as int,
                hi,
            ));
        }
    }
}

/// Spans follow one another in source order without overlapping, and what
/// lies before, between and after them is only whitespace and comments:
/// joining the texts that the spans address gives back the source with its
/// whitespace and comments taken out.
pub proof fn lemma_spans_cover_source(s: Seq<char>)
    ensures
        lex(s) matches Ok(toks) ==> laid_out(encode_utf8(s), 0, toks),
{
    lemma_lex_from_laid_out(encode_utf8(s), 0);
}

} // verus!
