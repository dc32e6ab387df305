//! Laws of the pipeline, stated and proved once and for all: the lexer
//! always ends a successful scan with a single `Eof`; an unrecognized
//! hashtag word is always reported at the position of its `#`; a
//! well-formed `#OBTW ... #TLDR` block inserted anywhere two tokens are
//! adjacent is invisible to the token stream; and scoping behaves
//! lexically: bindings die with their section, nested sections may shadow,
//! and only a same-scope redeclaration is an error.

use vstd::prelude::*;

use crate::text::{line_at, col_at, is_blank, is_alpha, is_alnum, ci_seq_eq};
use crate::token::{TokenKindView, hash_word_of, opens_pair};
use crate::lexer::{
    LexStep, LexErrorKindView, lex_step, lex_all, skip_blanks, alpha_end, alnum_end, text_end,
    comment_end, lemma_lex_step_progress, lemma_skip_blanks_bounds, lemma_alpha_end_bounds,
    lemma_alnum_end_bounds, lemma_text_end_bounds, lemma_comment_end_bounds,
};
use crate::semantic::{
    TraversalState, initial_state, v_node, v_seq, msg_undeclared, msg_redeclared,
};
use crate::parser::AstView;

verus! {

/// A successful scan of any input yields at least one token, ends with
/// `Eof`, and yields `Eof` nowhere else.
pub proof fn lemma_lex_ends_with_eof(s: Seq<char>, i: int)
    requires
        0 <= i <= s.len(),
    ensures
        (match lex_all(s, i) {
            Ok(toks) => {
                &&& toks.len() >= 1
                &&& toks.last().kind is Eof
                &&& (forall|j: int| 0 <= j < toks.len() - 1 ==> !(#[trigger] toks[j].kind is Eof))
            },
            Err(_) => true,
        }),
    decreases s.len() - i,
{
    lemma_lex_step_progress(s, i);
    match lex_step(s, i) {
        LexStep::Fail { err } => {},
        LexStep::Tok { kind, at, next } => {
            if !(kind is Eof) {
                lemma_lex_ends_with_eof(s, next);
            }
        },
    }
}

/// One scanning step that fails on an unrecognized hashtag word reports the
/// position of the `#` that introduced the word.
pub proof fn lemma_step_unknown_word_at_hash(s: Seq<char>, i: int)
    requires
        0 <= i <= s.len(),
    ensures
        (match lex_step(s, i) {
            LexStep::Fail { err } => err.kind is UnknownHashWord ==> exists|k: int|
                0 <= k < s.len() && s[k] == '#' && err.line == line_at(s, k) && err.col == col_at(
                    s,
                    k,
                ),
            LexStep::Tok { .. } => true,
        }),
    decreases s.len() - i,
{
    let k = skip_blanks(s, i);
    lemma_skip_blanks_bounds(s, i);
    if k < s.len() && s[k] == '#' {
        let e1 = crate::lexer::alpha_end(s, k + 1);
        crate::lexer::lemma_alpha_end_bounds(s, k + 1);
        let w1 = s.subrange(k + 1, e1);
        if crate::token::opens_pair(w1) && e1 < s.len() && s[e1] == ' ' {
            match lex_step(s, i) {
                LexStep::Fail { err } => {
                    assert(exists|k0: int|
                        0 <= k0 < s.len() && s[k0] == '#' && err.line == line_at(s, k0)
                            && err.col == col_at(s, k0)) by {
                        assert(0 <= k < s.len() && s[k] == '#' && err.line == line_at(s, k)
                            && err.col == col_at(s, k));
                    }
                },
                LexStep::Tok { .. } => {},
            }
        } else {
            match crate::token::hash_word_of(w1) {
                Some(hw) => {
                    if hw == crate::token::HashWord::Obtw {
                        match crate::lexer::comment_end(s, e1) {
                            Some(j) => {
                                crate::lexer::lemma_comment_end_bounds(s, e1);
                                lemma_step_unknown_word_at_hash(s, j);
                            },
                            None => {},
                        }
                    }
                },
                None => {
                    match lex_step(s, i) {
                        LexStep::Fail { err } => {
                            assert(exists|k0: int|
                                0 <= k0 < s.len() && s[k0] == '#' && err.line == line_at(s, k0)
                                    && err.col == col_at(s, k0)) by {
                                assert(0 <= k < s.len() && s[k] == '#' && err.line == line_at(
                                    s,
                                    k,
                                ) && err.col == col_at(s, k));
                            }
                        },
                        LexStep::Tok { .. } => {},
                    }
                },
            }
        }
    } else if k < s.len() && s[k] != '\n' && !crate::text::is_alpha(s[k]) {
        let e = crate::lexer::text_end(s, k);
        crate::lexer::lemma_text_end_bounds(s, k);
        crate::lexer::lemma_text_end_bounds(s, k + 1);
        if crate::text::trimmed(s.subrange(k, e)).len() == 0 {
            lemma_step_unknown_word_at_hash(s, e);
        }
    }
}

/// A whole scan that fails on an unrecognized hashtag word reports the
/// position of the `#` that introduced the word.
pub proof fn lemma_lex_unknown_word_at_hash(s: Seq<char>, i: int)
    requires
        0 <= i <= s.len(),
    ensures
        (match lex_all(s, i) {
            Err(err) => err.kind is UnknownHashWord ==> exists|k: int|
                0 <= k < s.len() && s[k] == '#' && err.line == line_at(s, k) && err.col == col_at(
                    s,
                    k,
                ),
            Ok(_) => true,
        }),
    decreases s.len() - i,
{
    lemma_lex_step_progress(s, i);
    lemma_step_unknown_word_at_hash(s, i);
    match lex_step(s, i) {
        LexStep::Fail { err } => {},
        LexStep::Tok { kind, at, next } => {
            if !(kind is Eof) {
                lemma_lex_unknown_word_at_hash(s, next);
            }
        },
    }
}


/// The kinds of a token sequence, positions forgotten.
pub open spec fn kinds_of(toks: Seq<crate::token::TokenView>) -> Seq<TokenKindView> {
    toks.map_values(|t: crate::token::TokenView| t.kind)
}

/// An alphabetic run ends exactly at the first non-alphabetic character.
proof fn lemma_alpha_run(s: Seq<char>, i: int, j: int)
    requires
        0 <= i <= j <= s.len(),
        forall|k: int| i <= k < j ==> is_alpha(#[trigger] s[k]),
        j == s.len() || !is_alpha(s[j]),
    ensures
        alpha_end(s, i) == j,
    decreases j - i,
{
    if i < j {
        lemma_alpha_run(s, i + 1, j);
    }
}

/// Characters that are not `#` are passed over by the comment scan.
proof fn lemma_comment_scan_plain(s: Seq<char>, i: int, j: int)
    requires
        0 <= i <= j <= s.len(),
        forall|k: int| i <= k < j ==> s[k] != '#',
    ensures
        comment_end(s, i) == comment_end(s, j),
    decreases j - i,
{
    if i < j {
        lemma_comment_scan_plain(s, i + 1, j);
    }
}

proof fn lemma_skip_blanks_shift(a: Seq<char>, b: Seq<char>, i: int)
    requires
        0 <= i <= b.len(),
    ensures
        skip_blanks(a + b, a.len() + i) == a.len() + skip_blanks(b, i),
    decreases b.len() - i,
{
    if i < b.len() && is_blank(b[i]) {
        lemma_skip_blanks_shift(a, b, i + 1);
    }
}

proof fn lemma_alpha_end_shift(a: Seq<char>, b: Seq<char>, i: int)
    requires
        0 <= i <= b.len(),
    ensures
        alpha_end(a + b, a.len() + i) == a.len() + alpha_end(b, i),
    decreases b.len() - i,
{
    if i < b.len() && is_alpha(b[i]) {
        lemma_alpha_end_shift(a, b, i + 1);
    }
}

proof fn lemma_alnum_end_shift(a: Seq<char>, b: Seq<char>, i: int)
    requires
        0 <= i <= b.len(),
    ensures
        alnum_end(a + b, a.len() + i) == a.len() + alnum_end(b, i),
    decreases b.len() - i,
{
    if i < b.len() && is_alnum(b[i]) {
        lemma_alnum_end_shift(a, b, i + 1);
    }
}

proof fn lemma_text_end_shift(a: Seq<char>, b: Seq<char>, i: int)
    requires
        0 <= i <= b.len(),
    ensures
        text_end(a + b, a.len() + i) == a.len() + text_end(b, i),
    decreases b.len() - i,
{
    if i < b.len() && b[i] != '\n' && b[i] != '#' {
        lemma_text_end_shift(a, b, i + 1);
    }
}

proof fn lemma_subrange_shift(a: Seq<char>, b: Seq<char>, x: int, y: int)
    requires
        0 <= x <= y <= b.len(),
    ensures
        (a + b).subrange(a.len() + x, a.len() + y) == b.subrange(x, y),
{
    assert((a + b).subrange(a.len() + x, a.len() + y) =~= b.subrange(x, y));
}

proof fn lemma_comment_end_shift(a: Seq<char>, b: Seq<char>, i: int)
    requires
        0 <= i <= b.len(),
    ensures
        comment_end(a + b, a.len() + i) == (match comment_end(b, i) {
            Some(e) => Some(a.len() + e),
            None => None::<int>,
        }),
    decreases b.len() - i,
{
    if i >= b.len() {
    } else if b[i] == '#' {
        lemma_alpha_end_shift(a, b, i + 1);
        let e = alpha_end(b, i + 1);
        lemma_alpha_end_bounds(b, i + 1);
        lemma_subrange_shift(a, b, i + 1, e);
        if !ci_seq_eq(b.subrange(i + 1, e), "TLDR"@) {
            lemma_comment_end_shift(a, b, e);
        }
    } else {
        lemma_comment_end_shift(a, b, i + 1);
    }
}

/// Scanning one token is invariant under any text placed before the scan
/// position: the token's kind, text included, is unchanged, and only its
/// positions shift.
proof fn lemma_lex_step_shift(a: Seq<char>, b: Seq<char>, i: int)
    requires
        0 <= i <= b.len(),
    ensures
        (match lex_step(b, i) {
            LexStep::Tok { kind, at, next } => lex_step(a + b, a.len() + i) == (LexStep::Tok {
                kind,
                at: a.len() + at,
                next: a.len() + next,
            }),
            LexStep::Fail { err } => lex_step(a + b, a.len() + i) matches LexStep::Fail {
                err: e1,
            } && e1.kind == err.kind,
        }),
    decreases b.len() - i,
{
    let full = a + b;
    lemma_skip_blanks_shift(a, b, i);
    lemma_skip_blanks_bounds(b, i);
    let k = skip_blanks(b, i);
    if k >= b.len() {
    } else if b[k] == '\n' {
    } else if b[k] == '#' {
        lemma_alpha_end_shift(a, b, k + 1);
        lemma_alpha_end_bounds(b, k + 1);
        let e1 = alpha_end(b, k + 1);
        lemma_subrange_shift(a, b, k + 1, e1);
        let w1 = b.subrange(k + 1, e1);
        if opens_pair(w1) && e1 < b.len() && b[e1] == ' ' {
            lemma_alpha_end_shift(a, b, e1 + 1);
            lemma_alpha_end_bounds(b, e1 + 1);
            let e2 = alpha_end(b, e1 + 1);
            lemma_subrange_shift(a, b, e1 + 1, e2);
        } else {
            if hash_word_of(w1) == Some(crate::token::HashWord::Obtw) {
                lemma_comment_end_shift(a, b, e1);
                match comment_end(b, e1) {
                    Some(j) => {
                        lemma_comment_end_bounds(b, e1);
                        lemma_lex_step_shift(a, b, j);
                    },
                    None => {},
                }
            }
        }
    } else if is_alpha(b[k]) {
        lemma_alnum_end_shift(a, b, k);
        lemma_alnum_end_bounds(b, k);
        let e = alnum_end(b, k);
        lemma_subrange_shift(a, b, k, e);
    } else {
        lemma_text_end_shift(a, b, k);
        lemma_text_end_bounds(b, k);
        lemma_text_end_bounds(b, k + 1);
        let e = text_end(b, k);
        lemma_subrange_shift(a, b, k, e);
        if crate::text::trimmed(b.subrange(k, e)).len() == 0 {
            lemma_lex_step_shift(a, b, e);
        }
    }
}

/// Scanning a whole suffix is invariant under any text placed before it:
/// the same token kinds come out, or a failure of the same kind.
proof fn lemma_lex_all_shift(a: Seq<char>, b: Seq<char>, i: int)
    requires
        0 <= i <= b.len(),
    ensures
        (match lex_all(b, i) {
            Ok(t2) => lex_all(a + b, a.len() + i) matches Ok(t1) && kinds_of(t1) == kinds_of(t2),
            Err(e2) => lex_all(a + b, a.len() + i) matches Err(e1) && e1.kind == e2.kind,
        }),
    decreases b.len() - i,
{
    lemma_lex_step_shift(a, b, i);
    lemma_lex_step_progress(b, i);
    lemma_lex_step_progress(a + b, a.len() + i);
    match lex_step(b, i) {
        LexStep::Fail { err } => {},
        LexStep::Tok { kind, at, next } => {
            if kind is Eof {
                assert(kinds_of(seq![
                    crate::token::TokenView {
                        kind,
                        line: line_at(a + b, a.len() + at),
                        col: col_at(a + b, a.len() + at),
                    },
                ]) =~= kinds_of(seq![
                    crate::token::TokenView { kind, line: line_at(b, at), col: col_at(b, at) },
                ]));
            } else {
                lemma_lex_all_shift(a, b, next);
                match lex_all(b, next) {
                    Err(e2) => {},
                    Ok(rest2) => {
                        match lex_all(a + b, a.len() + next) {
                            Err(_) => {
                                assert(false);
                            },
                            Ok(rest1) => {
                                let tv1 = crate::token::TokenView {
                                    kind,
                                    line: line_at(a + b, a.len() + at),
                                    col: col_at(a + b, a.len() + at),
                                };
                                let tv2 = crate::token::TokenView {
                                    kind,
                                    line: line_at(b, at),
                                    col: col_at(b, at),
                                };
                                assert(kinds_of(rest1).len() == rest1.len());
                                assert(kinds_of(rest2).len() == rest2.len());
                                assert(rest1.len() == rest2.len());
                                assert forall|m: int| 0 <= m < rest1.len() implies rest1[m].kind
                                    == rest2[m].kind by {
                                    assert(kinds_of(rest1)[m] == kinds_of(rest2)[m]);
                                }
                                assert(kinds_of(seq![tv1] + rest1) =~= kinds_of(seq![tv2]
                                    + rest2));
                            },
                        }
                    },
                }
            }
        },
    }
}


/// The positions `[0, p)` of two texts agree.
pub open spec fn agree_below(s1: Seq<char>, s2: Seq<char>, p: int) -> bool {
    &&& 0 <= p <= s1.len()
    &&& p <= s2.len()
    &&& (forall|m: int| 0 <= m < p ==> s1[m] == s2[m])
}

/// `s2` either ends at `p` or holds a `#` there: every scanner's run stops
/// on both.
pub open spec fn hash_at(s2: Seq<char>, p: int) -> bool {
    p == s2.len() || s2[p] == '#'
}

proof fn lemma_skip_blanks_window(s1: Seq<char>, s2: Seq<char>, i: int, p: int)
    requires
        agree_below(s1, s2, p),
        hash_at(s2, p),
        0 <= i <= p,
        skip_blanks(s1, i) <= p,
    ensures
        skip_blanks(s2, i) == skip_blanks(s1, i),
    decreases p - i,
{
    if i < s1.len() && is_blank(s1[i]) {
        lemma_skip_blanks_bounds(s1, i + 1);
        assert(skip_blanks(s1, i) == skip_blanks(s1, i + 1));
        assert(i + 1 <= p);
        lemma_skip_blanks_window(s1, s2, i + 1, p);
    }
}

proof fn lemma_alpha_end_window(s1: Seq<char>, s2: Seq<char>, i: int, p: int)
    requires
        agree_below(s1, s2, p),
        hash_at(s2, p),
        0 <= i <= p,
        alpha_end(s1, i) <= p,
    ensures
        alpha_end(s2, i) == alpha_end(s1, i),
    decreases p - i,
{
    if i < s1.len() && is_alpha(s1[i]) {
        lemma_alpha_end_bounds(s1, i + 1);
        assert(alpha_end(s1, i) == alpha_end(s1, i + 1));
        assert(i + 1 <= p);
        lemma_alpha_end_window(s1, s2, i + 1, p);
    }
}

proof fn lemma_alnum_end_window(s1: Seq<char>, s2: Seq<char>, i: int, p: int)
    requires
        agree_below(s1, s2, p),
        hash_at(s2, p),
        0 <= i <= p,
        alnum_end(s1, i) <= p,
    ensures
        alnum_end(s2, i) == alnum_end(s1, i),
    decreases p - i,
{
    if i < s1.len() && is_alnum(s1[i]) {
        lemma_alnum_end_bounds(s1, i + 1);
        assert(alnum_end(s1, i) == alnum_end(s1, i + 1));
        assert(i + 1 <= p);
        lemma_alnum_end_window(s1, s2, i + 1, p);
    }
}

proof fn lemma_text_end_window(s1: Seq<char>, s2: Seq<char>, i: int, p: int)
    requires
        agree_below(s1, s2, p),
        hash_at(s2, p),
        0 <= i <= p,
        text_end(s1, i) <= p,
    ensures
        text_end(s2, i) == text_end(s1, i),
    decreases p - i,
{
    if i < s1.len() && s1[i] != '\n' && s1[i] != '#' {
        lemma_text_end_bounds(s1, i + 1);
        assert(text_end(s1, i) == text_end(s1, i + 1));
        assert(i + 1 <= p);
        lemma_text_end_window(s1, s2, i + 1, p);
    }
}

proof fn lemma_subrange_window(s1: Seq<char>, s2: Seq<char>, x: int, y: int, p: int)
    requires
        agree_below(s1, s2, p),
        0 <= x <= y <= p,
    ensures
        s2.subrange(x, y) == s1.subrange(x, y),
{
    assert(s2.subrange(x, y) =~= s1.subrange(x, y));
}

proof fn lemma_position_window(s1: Seq<char>, s2: Seq<char>, q: int, p: int)
    requires
        agree_below(s1, s2, p),
        0 <= q <= p,
    ensures
        line_at(s2, q) == line_at(s1, q),
        col_at(s2, q) == col_at(s1, q),
    decreases q,
{
    if q > 0 {
        lemma_position_window(s1, s2, q - 1, p);
    }
}

proof fn lemma_comment_end_window(s1: Seq<char>, s2: Seq<char>, i: int, p: int)
    requires
        agree_below(s1, s2, p),
        hash_at(s2, p),
        0 <= i <= p,
        (match comment_end(s1, i) {
            Some(j) => j <= p,
            None => false,
        }),
    ensures
        comment_end(s2, i) == comment_end(s1, i),
    decreases p - i,
{
    lemma_comment_end_bounds(s1, i);
    // the scan yields a position strictly above i, so i sits below p
    assert(i < p);
    if s1[i] == '#' {
        let e = alpha_end(s1, i + 1);
        lemma_alpha_end_bounds(s1, i + 1);
        if ci_seq_eq(s1.subrange(i + 1, e), "TLDR"@) {
            lemma_alpha_end_window(s1, s2, i + 1, p);
            lemma_subrange_window(s1, s2, i + 1, e, p);
        } else {
            lemma_comment_end_bounds(s1, e);
            lemma_alpha_end_window(s1, s2, i + 1, p);
            lemma_subrange_window(s1, s2, i + 1, e, p);
            lemma_comment_end_window(s1, s2, e, p);
        }
    } else {
        lemma_comment_end_window(s1, s2, i + 1, p);
    }
}

/// A scanning step whose whole span lies below an agreement boundary with a
/// `#` on its far side reads exactly the same token from both texts.
proof fn lemma_lex_step_window(s1: Seq<char>, s2: Seq<char>, i: int, p: int)
    requires
        agree_below(s1, s2, p),
        hash_at(s2, p),
        0 <= i <= p,
        (match lex_step(s1, i) {
            LexStep::Tok { kind, at, next } => at < next <= p,
            LexStep::Fail { err } => false,
        }),
    ensures
        lex_step(s2, i) == lex_step(s1, i),
    decreases p - i,
{
    lemma_skip_blanks_bounds(s1, i);
    let k = skip_blanks(s1, i);
    lemma_lex_step_progress(s1, i);
    // the token starts strictly below the boundary
    assert(k < p);
    lemma_skip_blanks_window(s1, s2, i, p);
    if s1[k] == '\n' {
    } else if s1[k] == '#' {
        let e1 = alpha_end(s1, k + 1);
        lemma_alpha_end_bounds(s1, k + 1);
        let w1 = s1.subrange(k + 1, e1);
        if opens_pair(w1) && e1 < s1.len() && s1[e1] == ' ' {
            // a merged two-word token: both words end below the boundary
            let e2 = alpha_end(s1, e1 + 1);
            lemma_alpha_end_bounds(s1, e1 + 1);
            assert(e1 < e2 <= p);
            lemma_alpha_end_window(s1, s2, k + 1, p);
            lemma_subrange_window(s1, s2, k + 1, e1, p);
            lemma_alpha_end_window(s1, s2, e1 + 1, p);
            lemma_subrange_window(s1, s2, e1 + 1, e2, p);
        } else {
            match hash_word_of(w1) {
                Some(hw) => {
                    if hw == crate::token::HashWord::Obtw {
                        match comment_end(s1, e1) {
                            Some(j) => {
                                lemma_comment_end_bounds(s1, e1);
                                lemma_lex_step_progress(s1, j);
                                // the resumed scan stays below the boundary
                                assert(j <= p);
                                lemma_alpha_end_window(s1, s2, k + 1, p);
                                lemma_subrange_window(s1, s2, k + 1, e1, p);
                                assert(e1 == p ==> !(e1 < s2.len() && s2[e1] == ' '));
                                lemma_comment_end_window(s1, s2, e1, p);
                                lemma_lex_step_window(s1, s2, j, p);
                            },
                            None => {},
                        }
                    } else {
                        // a one-word token ending at or below the boundary
                        assert(e1 <= p);
                        lemma_alpha_end_window(s1, s2, k + 1, p);
                        lemma_subrange_window(s1, s2, k + 1, e1, p);
                        assert(e1 == p ==> !(e1 < s2.len() && s2[e1] == ' '));
                    }
                },
                None => {},
            }
        }
    } else if is_alpha(s1[k]) {
        let e = alnum_end(s1, k);
        lemma_alnum_end_bounds(s1, k);
        assert(e <= p);
        lemma_alnum_end_window(s1, s2, k, p);
        lemma_subrange_window(s1, s2, k, e, p);
    } else {
        let e = text_end(s1, k);
        lemma_text_end_bounds(s1, k);
        lemma_text_end_bounds(s1, k + 1);
        if crate::text::trimmed(s1.subrange(k, e)).len() == 0 {
            lemma_lex_step_progress(s1, e);
            // the resumed scan stays below the boundary
            assert(e <= p);
            lemma_text_end_window(s1, s2, k, p);
            lemma_subrange_window(s1, s2, k, e, p);
            lemma_lex_step_window(s1, s2, e, p);
        } else {
            assert(e <= p);
            lemma_text_end_window(s1, s2, k, p);
            lemma_subrange_window(s1, s2, k, e, p);
        }
    }
}

/// The token scan of `s`, started at `i`, arrives exactly at position `p`:
/// the formal reading of "two tokens are adjacent at `p`".
pub open spec fn scan_reaches(s: Seq<char>, i: int, p: int) -> bool
    decreases p - i,
    when 0 <= i <= s.len() && p <= s.len()
{
    if i == p {
        true
    } else if i > p {
        false
    } else {
        match lex_step(s, i) {
            LexStep::Tok { kind, at, next } => {
                if kind is Eof {
                    false
                } else {
                    proof {
                        lemma_lex_step_progress(s, i);
                    }
                    if next <= p {
                        scan_reaches(s, next, p)
                    } else {
                        false
                    }
                }
            },
            LexStep::Fail { err } => false,
        }
    }
}

/// A well-formed comment block: `#OBTW`, free text that holds no `#` and
/// does not begin with a letter, and the closing `#TLDR`.
pub open spec fn comment_block(mid: Seq<char>) -> Seq<char> {
    "#OBTW"@ + mid + "#TLDR"@
}

/// The interior text a comment block may carry.
pub open spec fn plain_comment_text(mid: Seq<char>) -> bool {
    &&& (forall|k: int| 0 <= k < mid.len() ==> mid[k] != '#')
    &&& (mid.len() == 0 || !is_alpha(mid[0]))
}

/// Comments are transparent: placing a well-formed `#OBTW ... #TLDR` block
/// in front of any input that does not begin with a letter leaves the
/// scanned token kinds unchanged, and failures fail the same way.
pub proof fn lemma_comment_block_transparent(mid: Seq<char>, s: Seq<char>)
    requires
        plain_comment_text(mid),
        s.len() == 0 || !is_alpha(s[0]),
    ensures
        (match lex_all(s, 0) {
            Ok(t2) => lex_all(comment_block(mid) + s, 0) matches Ok(t1) && kinds_of(t1)
                == kinds_of(t2),
            Err(e2) => lex_all(comment_block(mid) + s, 0) matches Err(e1) && e1.kind == e2.kind,
        }),
{
    reveal_strlit("#OBTW");
    reveal_strlit("#TLDR");
    reveal_strlit("OBTW");
    reveal_strlit("TLDR");
    reveal_strlit("HAI");
    reveal_strlit("KTHXBYE");
    reveal_strlit("I");
    reveal_strlit("IT");
    reveal_strlit("LEMME");
    let c = comment_block(mid);
    let full = c + s;
    let base = 5 + mid.len() as int;
    assert(c.len() == mid.len() + 10);
    assert(forall|m: int| 0 <= m < 5 ==> full[m] == "#OBTW"@[m]);
    assert(forall|m: int| 0 <= m < mid.len() ==> full[5 + m] == mid[m]);
    assert(forall|m: int| 0 <= m < 5 ==> full[base + m] == "#TLDR"@[m]);
    assert(forall|m: int| 0 <= m < s.len() ==> full[c.len() + m] == s[m]);
    // the scan starts on the `#` of `#OBTW`
    assert(full[0] == '#');
    assert(!is_blank(full[0]));
    assert(skip_blanks(full, 0) == 0);
    // the word after the `#` is exactly OBTW
    assert(forall|m: int| 1 <= m < 5 ==> is_alpha(#[trigger] full[m]));
    assert(5 == full.len() || !is_alpha(full[5]));
    lemma_alpha_run(full, 1, 5);
    let w1 = full.subrange(1, 5);
    assert(w1 =~= "OBTW"@);
    assert(!opens_pair(w1));
    assert(hash_word_of(w1) == Some(crate::token::HashWord::Obtw));
    // the comment scan crosses the interior and stops on #TLDR
    assert(forall|m: int| 5 <= m < base ==> full[m] != '#');
    lemma_comment_scan_plain(full, 5, base);
    assert(full[base] == '#');
    assert(forall|m: int| base + 1 <= m < base + 5 ==> is_alpha(#[trigger] full[m]));
    assert(base + 5 == full.len() || !is_alpha(full[base + 5]));
    lemma_alpha_run(full, base + 1, base + 5);
    let w2 = full.subrange(base + 1, base + 5);
    assert(w2 =~= "TLDR"@);
    assert(ci_seq_eq(w2, "TLDR"@));
    assert(comment_end(full, base) == Some(base + 5));
    assert(comment_end(full, 5) == Some(c.len() as int));
    // so the first step scans straight past the block,
    assert(lex_step(full, 0) == lex_step(full, c.len() as int));
    assert(lex_all(full, 0) == lex_all(full, c.len() as int));
    // and what follows is the surrounding input, shifted
    lemma_lex_all_shift(c, s, 0);
}


/// One scan run, compared across the insertion of a comment block at the
/// position `p` that the run reaches: every token below `p` is read
/// identically, and from `p` on the block is skipped and the rest shifts.
proof fn lemma_comment_insertion_run(pre: Seq<char>, mid: Seq<char>, rest: Seq<char>, i: int)
    requires
        plain_comment_text(mid),
        rest.len() == 0 || !is_alpha(rest[0]),
        0 <= i <= pre.len(),
        scan_reaches(pre + rest, i, pre.len() as int),
    ensures
        (match lex_all(pre + rest, i) {
            Ok(t2) => lex_all(pre + comment_block(mid) + rest, i) matches Ok(t1) && kinds_of(t1)
                == kinds_of(t2),
            Err(e2) => lex_all(pre + comment_block(mid) + rest, i) matches Err(e1) && e1.kind
                == e2.kind,
        }),
    decreases pre.len() - i,
{
    reveal_strlit("#OBTW");
    let s1 = pre + rest;
    let s2 = pre + comment_block(mid) + rest;
    let p = pre.len() as int;
    assert(agree_below(s1, s2, p));
    assert(s2[p] == '#');
    if i == p {
        // from the boundary on: strip the common prefix on both sides,
        // then strip the block itself
        lemma_lex_all_shift(pre, rest, 0);
        assert(s2 =~= pre + (comment_block(mid) + rest));
        lemma_lex_all_shift(pre, comment_block(mid) + rest, 0);
        lemma_comment_block_transparent(mid, rest);
        match lex_all(rest, 0) {
            Ok(t0) => {
                match lex_all(s1, p) {
                    Ok(t2) => {
                        match lex_all(s2, p) {
                            Ok(t1) => {
                                match lex_all(comment_block(mid) + rest, 0) {
                                    Ok(tb) => {
                                        assert(kinds_of(t1) == kinds_of(tb));
                                        assert(kinds_of(tb) == kinds_of(t0));
                                        assert(kinds_of(t2) == kinds_of(t0));
                                    },
                                    Err(_) => {
                                        assert(false);
                                    },
                                }
                            },
                            Err(_) => {
                                assert(false);
                            },
                        }
                    },
                    Err(_) => {
                        assert(false);
                    },
                }
            },
            Err(e0) => {
                match lex_all(s1, p) {
                    Ok(_) => {
                        assert(false);
                    },
                    Err(e2) => {
                        match lex_all(s2, p) {
                            Ok(_) => {
                                assert(false);
                            },
                            Err(e1) => {
                                assert(e1.kind == e0.kind);
                                assert(e2.kind == e0.kind);
                            },
                        }
                    },
                }
            },
        }
    } else {
        // below the boundary: both texts scan the very same token
        lemma_lex_step_progress(s1, i);
        match lex_step(s1, i) {
            LexStep::Fail { err } => {
                assert(false);
            },
            LexStep::Tok { kind, at, next } => {
                assert(!(kind is Eof) && next <= p && scan_reaches(s1, next, p));
                lemma_lex_step_window(s1, s2, i, p);
                lemma_position_window(s1, s2, at, p);
                lemma_comment_insertion_run(pre, mid, rest, next);
                let tv = crate::token::TokenView {
                    kind,
                    line: line_at(s1, at),
                    col: col_at(s1, at),
                };
                assert((crate::token::TokenView {
                    kind,
                    line: line_at(s2, at),
                    col: col_at(s2, at),
                }) == tv);
                match lex_all(s1, next) {
                    Err(e2) => {},
                    Ok(rest2) => {
                        match lex_all(s2, next) {
                            Err(_) => {
                                assert(false);
                            },
                            Ok(rest1) => {
                                assert(kinds_of(rest1).len() == rest1.len());
                                assert(kinds_of(rest2).len() == rest2.len());
                                assert(rest1.len() == rest2.len());
                                assert forall|m: int| 0 <= m < rest1.len() implies rest1[m].kind
                                    == rest2[m].kind by {
                                    assert(kinds_of(rest1)[m] == kinds_of(rest2)[m]);
                                }
                                assert(kinds_of(seq![tv] + rest1) =~= kinds_of(seq![tv] + rest2));
                            },
                        }
                    },
                }
            },
        }
    }
}

/// Comments are transparent wherever they stand: inserting a well-formed
/// `#OBTW ... #TLDR` block at any position the token scan reaches — that
/// is, anywhere two tokens are adjacent — leaves the scanned token kinds
/// unchanged, and failures fail the same way. The text after the insertion
/// point must not begin with a letter, or it would fuse with the closing
/// `#TLDR` word.
pub proof fn lemma_comment_insertion_transparent(pre: Seq<char>, mid: Seq<char>, rest: Seq<char>)
    requires
        plain_comment_text(mid),
        rest.len() == 0 || !is_alpha(rest[0]),
        scan_reaches(pre + rest, 0, pre.len() as int),
    ensures
        (match lex_all(pre + rest, 0) {
            Ok(t2) => lex_all(pre + comment_block(mid) + rest, 0) matches Ok(t1) && kinds_of(t1)
                == kinds_of(t2),
            Err(e2) => lex_all(pre + comment_block(mid) + rest, 0) matches Err(e1) && e1.kind
                == e2.kind,
        }),
{
    lemma_comment_insertion_run(pre, mid, rest, 0);
}

/// A paragraph that declares and assigns a variable: the building block of
/// the scoping laws below.
pub open spec fn paragraf_declaring(x: Seq<char>, v: Seq<char>) -> Seq<AstView> {
    seq![
        AstView::VariableDeclaration { name: x },
        AstView::VariableAssignment { name: Seq::empty(), value: v },
    ]
}

/// Validating a declaration of `x` followed by an assignment of `v`, from
/// any state whose innermost scope does not yet hold `x`, binds `x` to `v`
/// there and collects no error.
proof fn lemma_declare_assign(x: Seq<char>, v: Seq<char>, st: TraversalState)
    requires
        st.stack.len() >= 1,
        !st.stack.last().contains_key(x),
    ensures
        v_seq(paragraf_declaring(x, v), st) == (TraversalState {
            stack: st.stack.drop_last().push(st.stack.last().insert(x, None).insert(x, Some(v))),
            pending: None,
            errors: st.errors,
        }),
{
    let decl = AstView::VariableDeclaration { name: x };
    let assign = AstView::VariableAssignment { name: Seq::empty(), value: v };
    let kids = paragraf_declaring(x, v);
    assert(kids.first() == decl);
    assert(kids.drop_first() =~= seq![assign]);
    assert(seq![assign].first() == assign);
    assert(seq![assign].drop_first() =~= Seq::<AstView>::empty());
    let s1 = v_node(decl, st);
    assert(s1.stack == st.stack.drop_last().push(st.stack.last().insert(x, None)));
    assert(s1.pending == Some(x));
    assert(s1.errors == st.errors);
    assert(s1.stack.last().contains_key(x));
    let s2 = v_node(assign, s1);
    assert(crate::semantic::assign_in(s1.stack, x, v) == Some(
        s1.stack.drop_last().push(s1.stack.last().insert(x, Some(v))),
    ));
    assert(s2.stack =~~= st.stack.drop_last().push(
        st.stack.last().insert(x, None).insert(x, Some(v)),
    ));
    assert(s2.pending is None);
    assert(s2.errors == st.errors);
    assert(v_seq(kids, st) == v_seq(kids.drop_first(), s1));
    assert(v_seq(seq![assign], s1) == v_seq(Seq::<AstView>::empty(), s2));
    assert(v_seq(kids, st) == s2);
}

/// A variable declared and assigned inside one paragraph section is out of
/// scope in a sibling paragraph section: referencing it there yields
/// exactly the "used but never declared" error.
pub proof fn lemma_sibling_scope_unresolvable(x: Seq<char>, v: Seq<char>)
    ensures
        ({
            let tree = AstView::Program {
                children: seq![
                    AstView::ParagrafSection { children: paragraf_declaring(x, v) },
                    AstView::ParagrafSection {
                        children: seq![AstView::VariableReference { name: x }],
                    },
                ],
            };
            v_node(tree, initial_state()).errors =~= seq![msg_undeclared(x)]
        }),
{
    let st0 = initial_state();
    let para1 = AstView::ParagrafSection { children: paragraf_declaring(x, v) };
    let vref = AstView::VariableReference { name: x };
    let para2 = AstView::ParagrafSection { children: seq![vref] };
    let tree = AstView::Program { children: seq![para1, para2] };
    // paragraph 1: declare and assign inside a fresh scope, then pop it
    let entered1 = TraversalState {
        stack: st0.stack.push(Map::empty()),
        pending: st0.pending,
        errors: st0.errors,
    };
    assert(!entered1.stack.last().contains_key(x));
    lemma_declare_assign(x, v, entered1);
    let inner1 = v_seq(paragraf_declaring(x, v), entered1);
    assert(inner1.stack.len() == 2);
    let p1out = v_node(para1, st0);
    assert(p1out.stack == inner1.stack.drop_last());
    assert(p1out.stack =~= st0.stack);
    assert(p1out.pending is None);
    assert(p1out.errors == st0.errors);
    // paragraph 2: the reference finds nothing in any scope
    let entered2 = TraversalState {
        stack: p1out.stack.push(Map::empty()),
        pending: p1out.pending,
        errors: p1out.errors,
    };
    assert(seq![vref].first() == vref);
    assert(seq![vref].drop_first() =~= Seq::<AstView>::empty());
    assert(!entered2.stack.last().contains_key(x));
    assert(entered2.stack.drop_last() =~= st0.stack);
    assert(!st0.stack.last().contains_key(x));
    assert(st0.stack.drop_last() =~= Seq::<Map<Seq<char>, Option<Seq<char>>>>::empty());
    assert(entered2.stack.drop_last() =~= p1out.stack);
    assert(crate::semantic::lookup_in(entered2.stack, x) == crate::semantic::lookup_in(
        st0.stack,
        x,
    ));
    assert(crate::semantic::lookup_in(st0.stack, x) == crate::semantic::lookup_in(
        Seq::<Map<Seq<char>, Option<Seq<char>>>>::empty(),
        x,
    ));
    assert(crate::semantic::lookup_in(
        Seq::<Map<Seq<char>, Option<Seq<char>>>>::empty(),
        x,
    ) is None);
    let r1 = v_node(vref, entered2);
    assert(r1.errors == st0.errors.push(msg_undeclared(x)));
    assert(v_seq(Seq::<AstView>::empty(), r1) == r1);
    assert(v_seq(seq![vref], entered2) == r1);
    let p2out = v_node(para2, p1out);
    assert(p2out.errors == r1.errors);
    // the whole program
    assert(seq![para1, para2].first() == para1);
    assert(seq![para1, para2].drop_first() =~= seq![para2]);
    assert(seq![para2].first() == para2);
    assert(seq![para2].drop_first() =~= Seq::<AstView>::empty());
    assert(v_seq(seq![para1, para2], st0) == v_seq(seq![para2], p1out));
    assert(v_seq(seq![para2], p1out) == v_seq(Seq::<AstView>::empty(), p2out));
    assert(v_node(tree, st0).errors == p2out.errors);
    assert(st0.errors.push(msg_undeclared(x)) =~= seq![msg_undeclared(x)]);
}

/// A variable declared and assigned in a paragraph section is visible from
/// a section nested inside it: the nested reference validates cleanly.
pub proof fn lemma_nested_scope_resolvable(x: Seq<char>, v: Seq<char>)
    ensures
        ({
            let tree = AstView::Program {
                children: seq![
                    AstView::ParagrafSection {
                        children: paragraf_declaring(x, v).push(
                            AstView::ParagrafSection {
                                children: seq![AstView::VariableReference { name: x }],
                            },
                        ),
                    },
                ],
            };
            v_node(tree, initial_state()).errors =~= Seq::<Seq<char>>::empty()
        }),
{
    let st0 = initial_state();
    let vref = AstView::VariableReference { name: x };
    let inner_para = AstView::ParagrafSection { children: seq![vref] };
    let kids = paragraf_declaring(x, v).push(inner_para);
    let outer = AstView::ParagrafSection { children: kids };
    let tree = AstView::Program { children: seq![outer] };
    let entered1 = TraversalState {
        stack: st0.stack.push(Map::empty()),
        pending: st0.pending,
        errors: st0.errors,
    };
    assert(!entered1.stack.last().contains_key(x));
    lemma_declare_assign(x, v, entered1);
    let s2 = v_seq(paragraf_declaring(x, v), entered1);
    assert(s2.stack.last() == Map::<Seq<char>, Option<Seq<char>>>::empty().insert(x, None).insert(
        x,
        Some(v),
    ));
    // walking the three children: the first two are the declaring pair
    assert(kids.first() == paragraf_declaring(x, v).first());
    assert(kids.drop_first() =~= seq![
        AstView::VariableAssignment { name: Seq::empty(), value: v },
        inner_para,
    ]);
    let decl = AstView::VariableDeclaration { name: x };
    let assign = AstView::VariableAssignment { name: Seq::empty(), value: v };
    let s1 = v_node(decl, entered1);
    assert(v_seq(kids, entered1) == v_seq(kids.drop_first(), s1));
    assert(kids.drop_first().first() == assign);
    assert(kids.drop_first().drop_first() =~= seq![inner_para]);
    let s2b = v_node(assign, s1);
    assert(v_seq(kids.drop_first(), s1) == v_seq(seq![inner_para], s2b));
    // relate to the two-step lemma: same states
    assert(paragraf_declaring(x, v).first() == decl);
    assert(paragraf_declaring(x, v).drop_first() =~= seq![assign]);
    assert(v_seq(paragraf_declaring(x, v), entered1) == v_seq(seq![assign], s1));
    assert(seq![assign].first() == assign);
    assert(seq![assign].drop_first() =~= Seq::<AstView>::empty());
    assert(v_seq(seq![assign], s1) == v_seq(Seq::<AstView>::empty(), s2b));
    assert(v_seq(Seq::<AstView>::empty(), s2b) == s2b);
    assert(s2b == s2);
    // the nested section sees the binding through its fresh empty scope
    let entered2 = TraversalState {
        stack: s2.stack.push(Map::empty()),
        pending: s2.pending,
        errors: s2.errors,
    };
    assert(seq![vref].first() == vref);
    assert(seq![vref].drop_first() =~= Seq::<AstView>::empty());
    assert(!entered2.stack.last().contains_key(x));
    assert(entered2.stack.drop_last() =~= s2.stack);
    assert(s2.stack.last().contains_key(x));
    assert(s2.stack.last()[x] == Some(v));
    assert(crate::semantic::lookup_in(entered2.stack, x) == crate::semantic::lookup_in(
        s2.stack,
        x,
    ));
    assert(crate::semantic::lookup_in(s2.stack, x) == Some(Some(v)));
    let r1 = v_node(vref, entered2);
    assert(r1 == entered2);
    assert(v_seq(Seq::<AstView>::empty(), r1) == r1);
    assert(v_seq(seq![vref], entered2) == r1);
    let nested_out = v_node(inner_para, s2);
    assert(nested_out.errors == s2.errors);
    assert(seq![inner_para].first() == inner_para);
    assert(seq![inner_para].drop_first() =~= Seq::<AstView>::empty());
    assert(v_seq(seq![inner_para], s2b) == v_seq(Seq::<AstView>::empty(), nested_out));
    assert(v_seq(Seq::<AstView>::empty(), nested_out) == nested_out);
    assert(v_seq(kids, entered1) == nested_out);
    let outer_out = v_node(outer, st0);
    assert(outer_out.errors == nested_out.errors);
    assert(seq![outer].first() == outer);
    assert(seq![outer].drop_first() =~= Seq::<AstView>::empty());
    assert(v_seq(seq![outer], st0) == v_seq(Seq::<AstView>::empty(), outer_out));
    assert(v_seq(Seq::<AstView>::empty(), outer_out) == outer_out);
    assert(v_node(tree, st0) == v_seq(seq![outer], st0));
    assert(v_node(tree, st0).errors =~= Seq::<Seq<char>>::empty());
}

/// Redeclaring a name in a nested section shadows without error.
pub proof fn lemma_shadowing_in_nested_scope(x: Seq<char>)
    ensures
        ({
            let tree = AstView::Program {
                children: seq![
                    AstView::ParagrafSection {
                        children: seq![
                            AstView::VariableDeclaration { name: x },
                            AstView::ParagrafSection {
                                children: seq![AstView::VariableDeclaration { name: x }],
                            },
                        ],
                    },
                ],
            };
            v_node(tree, initial_state()).errors =~= Seq::<Seq<char>>::empty()
        }),
{
    let st0 = initial_state();
    let decl = AstView::VariableDeclaration { name: x };
    let inner_para = AstView::ParagrafSection { children: seq![decl] };
    let kids = seq![decl, inner_para];
    let outer = AstView::ParagrafSection { children: kids };
    let tree = AstView::Program { children: seq![outer] };
    let entered1 = TraversalState {
        stack: st0.stack.push(Map::empty()),
        pending: st0.pending,
        errors: st0.errors,
    };
    assert(!entered1.stack.last().contains_key(x));
    let s1 = v_node(decl, entered1);
    assert(s1.errors == st0.errors);
    // the nested scope is fresh, so the same name declares cleanly
    let entered2 = TraversalState {
        stack: s1.stack.push(Map::empty()),
        pending: s1.pending,
        errors: s1.errors,
    };
    assert(!entered2.stack.last().contains_key(x));
    let s_inner = v_node(decl, entered2);
    assert(s_inner.errors == st0.errors);
    assert(seq![decl].first() == decl);
    assert(seq![decl].drop_first() =~= Seq::<AstView>::empty());
    assert(v_seq(Seq::<AstView>::empty(), s_inner) == s_inner);
    assert(v_seq(seq![decl], entered2) == s_inner);
    let nested_out = v_node(inner_para, s1);
    assert(nested_out.errors == st0.errors);
    assert(kids.first() == decl);
    assert(kids.drop_first() =~= seq![inner_para]);
    assert(seq![inner_para].first() == inner_para);
    assert(seq![inner_para].drop_first() =~= Seq::<AstView>::empty());
    assert(v_seq(kids, entered1) == v_seq(seq![inner_para], s1));
    assert(v_seq(seq![inner_para], s1) == v_seq(Seq::<AstView>::empty(), nested_out));
    assert(v_seq(Seq::<AstView>::empty(), nested_out) == nested_out);
    let outer_out = v_node(outer, st0);
    assert(outer_out.errors == st0.errors);
    assert(seq![outer].first() == outer);
    assert(seq![outer].drop_first() =~= Seq::<AstView>::empty());
    assert(v_seq(seq![outer], st0) == v_seq(Seq::<AstView>::empty(), outer_out));
    assert(v_seq(Seq::<AstView>::empty(), outer_out) == outer_out);
    assert(v_node(tree, st0) == v_seq(seq![outer], st0));
    assert(v_node(tree, st0).errors =~= Seq::<Seq<char>>::empty());
}

/// Redeclaring a name twice in the same section yields exactly one
/// "already declared" error.
pub proof fn lemma_redeclaration_in_same_scope(x: Seq<char>)
    ensures
        ({
            let tree = AstView::Program {
                children: seq![
                    AstView::ParagrafSection {
                        children: seq![
                            AstView::VariableDeclaration { name: x },
                            AstView::VariableDeclaration { name: x },
                        ],
                    },
                ],
            };
            v_node(tree, initial_state()).errors =~= seq![msg_redeclared(x)]
        }),
{
    let st0 = initial_state();
    let decl = AstView::VariableDeclaration { name: x };
    let kids = seq![decl, decl];
    let outer = AstView::ParagrafSection { children: kids };
    let tree = AstView::Program { children: seq![outer] };
    let entered1 = TraversalState {
        stack: st0.stack.push(Map::empty()),
        pending: st0.pending,
        errors: st0.errors,
    };
    assert(!entered1.stack.last().contains_key(x));
    let s1 = v_node(decl, entered1);
    assert(s1.errors == st0.errors);
    // the second declaration hits the same scope, which now holds the name
    assert(s1.stack.last().contains_key(x));
    let s2 = v_node(decl, s1);
    assert(s2.errors == st0.errors.push(msg_redeclared(x)));
    assert(kids.first() == decl);
    assert(kids.drop_first() =~= seq![decl]);
    assert(seq![decl].first() == decl);
    assert(seq![decl].drop_first() =~= Seq::<AstView>::empty());
    assert(v_seq(kids, entered1) == v_seq(seq![decl], s1));
    assert(v_seq(seq![decl], s1) == v_seq(Seq::<AstView>::empty(), s2));
    assert(v_seq(Seq::<AstView>::empty(), s2) == s2);
    let outer_out = v_node(outer, st0);
    assert(outer_out.errors == s2.errors);
    assert(seq![outer].first() == outer);
    assert(seq![outer].drop_first() =~= Seq::<AstView>::empty());
    assert(v_seq(seq![outer], st0) == v_seq(Seq::<AstView>::empty(), outer_out));
    assert(v_seq(Seq::<AstView>::empty(), outer_out) == outer_out);
    assert(v_node(tree, st0) == v_seq(seq![outer], st0));
    assert(v_node(tree, st0).errors =~= seq![msg_redeclared(x)]);
}

} // verus!
