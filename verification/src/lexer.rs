//! Lexical analysis: on-demand scanning of source characters into classified
//! tokens, with 1-indexed position tracking, blank skipping, a one-shot
//! greedy lookahead for the two-word hashtag words, and transparent
//! `#OBTW ... #TLDR` comment blocks.
//!
//! The whole scanner is mirrored by the specification functions `lex_step`
//! (one token) and `lex_all` (the full token sequence); every executable
//! entry point is proved equal to them.

use vstd::prelude::*;

use crate::text::{
    blank_char, alpha_char, alnum_char, space_char, ci_seq_eq, ci_eq_char, str_eq,
    is_blank, is_alpha, is_alnum, is_space,
    line_at, col_at, lemma_position_bounds,
    trim_start_idx, trim_end_idx, trimmed,
};
use crate::token::{
    HashWord, Keyword, Token, TokenKind, TokenKindView, TokenView, tokens_view,
    hash_word_of, keyword_of, opens_pair, pair_word_of,
};

verus! {

/// Why lexing failed.
#[derive(Clone, PartialEq, Eq, Debug)]
pub enum LexErrorKind {
    /// A `#`-word outside the closed hashtag-word set, as written in the source.
    UnknownHashWord { word: String },
    /// An `#OBTW` comment block that reaches end of input without a `#TLDR`.
    UnclosedComment,
}

/// A fatal lexical error with the 1-indexed position it is reported at.
#[derive(Clone, PartialEq, Eq, Debug)]
pub struct LexError {
    pub kind: LexErrorKind,
    pub line: usize,
    pub col: usize,
}

pub enum LexErrorKindView {
    UnknownHashWord { word: Seq<char> },
    UnclosedComment,
}

pub struct LexErrorView {
    pub kind: LexErrorKindView,
    pub line: int,
    pub col: int,
}

impl View for LexErrorKind {
    type V = LexErrorKindView;

    open spec fn view(&self) -> LexErrorKindView {
        match self {
            LexErrorKind::UnknownHashWord { word } => LexErrorKindView::UnknownHashWord {
                word: word@,
            },
            LexErrorKind::UnclosedComment => LexErrorKindView::UnclosedComment,
        }
    }
}

impl View for LexError {
    type V = LexErrorView;

    open spec fn view(&self) -> LexErrorView {
        LexErrorView { kind: self.kind@, line: self.line as int, col: self.col as int }
    }
}

/// What one scanning step from a given position yields: a token spanning
/// `at..next`, or a fatal error.
pub enum LexStep {
    Tok { kind: TokenKindView, at: int, next: int },
    Fail { err: LexErrorView },
}

/// End of the run of blanks starting at `i`.
pub open spec fn skip_blanks(s: Seq<char>, i: int) -> int
    decreases s.len() - i,
    when 0 <= i <= s.len()
{
    if i < s.len() && is_blank(s[i]) {
        skip_blanks(s, i + 1)
    } else {
        i
    }
}

/// End of the run of alphabetic characters starting at `i`.
pub open spec fn alpha_end(s: Seq<char>, i: int) -> int
    decreases s.len() - i,
    when 0 <= i <= s.len()
{
    if i < s.len() && is_alpha(s[i]) {
        alpha_end(s, i + 1)
    } else {
        i
    }
}

/// End of the run of alphanumeric characters starting at `i`.
pub open spec fn alnum_end(s: Seq<char>, i: int) -> int
    decreases s.len() - i,
    when 0 <= i <= s.len()
{
    if i < s.len() && is_alnum(s[i]) {
        alnum_end(s, i + 1)
    } else {
        i
    }
}

/// End of the run of plain text starting at `i`: everything up to the next
/// newline, `#`, or end of input.
pub open spec fn text_end(s: Seq<char>, i: int) -> int
    decreases s.len() - i,
    when 0 <= i <= s.len()
{
    if i < s.len() && s[i] != '\n' && s[i] != '#' {
        text_end(s, i + 1)
    } else {
        i
    }
}

pub proof fn lemma_skip_blanks_bounds(s: Seq<char>, i: int)
    requires
        0 <= i <= s.len(),
    ensures
        i <= skip_blanks(s, i) <= s.len(),
    decreases s.len() - i,
{
    if i < s.len() && is_blank(s[i]) {
        lemma_skip_blanks_bounds(s, i + 1);
    }
}

pub proof fn lemma_alpha_end_bounds(s: Seq<char>, i: int)
    requires
        0 <= i <= s.len(),
    ensures
        i <= alpha_end(s, i) <= s.len(),
    decreases s.len() - i,
{
    if i < s.len() && is_alpha(s[i]) {
        lemma_alpha_end_bounds(s, i + 1);
    }
}

pub proof fn lemma_alnum_end_bounds(s: Seq<char>, i: int)
    requires
        0 <= i <= s.len(),
    ensures
        i <= alnum_end(s, i) <= s.len(),
    decreases s.len() - i,
{
    if i < s.len() && is_alnum(s[i]) {
        lemma_alnum_end_bounds(s, i + 1);
    }
}

pub proof fn lemma_text_end_bounds(s: Seq<char>, i: int)
    requires
        0 <= i <= s.len(),
    ensures
        i <= text_end(s, i) <= s.len(),
    decreases s.len() - i,
{
    if i < s.len() && s[i] != '\n' && s[i] != '#' {
        lemma_text_end_bounds(s, i + 1);
    }
}

/// Position just after the `#TLDR` word that closes a comment scanned from
/// `i`, or `None` when the input ends first. `#`-prefixed words other than
/// `TLDR` are ordinary comment characters.
pub open spec fn comment_end(s: Seq<char>, i: int) -> Option<int>
    decreases s.len() - i,
    when 0 <= i <= s.len()
{
    if i >= s.len() {
        None
    } else if s[i] == '#' {
        let e = alpha_end(s, i + 1);
        proof {
            lemma_alpha_end_bounds(s, i + 1);
        }
        if ci_seq_eq(s.subrange(i + 1, e), "TLDR"@) {
            Some(e)
        } else {
            comment_end(s, e)
        }
    } else {
        comment_end(s, i + 1)
    }
}

pub proof fn lemma_comment_end_bounds(s: Seq<char>, i: int)
    requires
        0 <= i <= s.len(),
    ensures
        (match comment_end(s, i) {
            Some(e) => i < e <= s.len(),
            None => true,
        }),
    decreases s.len() - i,
{
    if i < s.len() {
        if s[i] == '#' {
            lemma_alpha_end_bounds(s, i + 1);
            let e = alpha_end(s, i + 1);
            if !ci_seq_eq(s.subrange(i + 1, e), "TLDR"@) {
                lemma_comment_end_bounds(s, e);
            }
        } else {
            lemma_comment_end_bounds(s, i + 1);
        }
    }
}

/// The error reported for a `#`-word outside the closed set: the word as
/// written, at the position of the `#` itself.
pub open spec fn unknown_word_fail(s: Seq<char>, hash_at: int, word: Seq<char>) -> LexStep {
    LexStep::Fail {
        err: LexErrorView {
            kind: LexErrorKindView::UnknownHashWord { word },
            line: line_at(s, hash_at),
            col: col_at(s, hash_at),
        },
    }
}

/// One full scanning step from position `i`: skip blanks, then classify what
/// follows. Comments and blank text runs are transparent: the step recurses
/// past them, so they never yield a token.
pub open spec fn lex_step(s: Seq<char>, i: int) -> LexStep
    decreases s.len() - i,
    when 0 <= i <= s.len()
{
    let k = skip_blanks(s, i);
    proof {
        lemma_skip_blanks_bounds(s, i);
    }
    if k >= s.len() {
        LexStep::Tok { kind: TokenKindView::Eof, at: k, next: k }
    } else if s[k] == '\n' {
        LexStep::Tok { kind: TokenKindView::Newline, at: k, next: k + 1 }
    } else if s[k] == '#' {
        let e1 = alpha_end(s, k + 1);
        let w1 = s.subrange(k + 1, e1);
        proof {
            lemma_alpha_end_bounds(s, k + 1);
        }
        if opens_pair(w1) && e1 < s.len() && s[e1] == ' ' {
            let e2 = alpha_end(s, e1 + 1);
            let w2 = s.subrange(e1 + 1, e2);
            match pair_word_of(w1, w2) {
                Some(hw) => LexStep::Tok { kind: TokenKindView::HashWord(hw), at: k, next: e2 },
                None => unknown_word_fail(s, k, w1),
            }
        } else {
            match hash_word_of(w1) {
                Some(hw) => {
                    if hw == HashWord::Obtw {
                        match comment_end(s, e1) {
                            Some(j) => {
                                proof {
                                    lemma_comment_end_bounds(s, e1);
                                }
                                lex_step(s, j)
                            },
                            None => LexStep::Fail {
                                err: LexErrorView {
                                    kind: LexErrorKindView::UnclosedComment,
                                    line: line_at(s, s.len() as int),
                                    col: col_at(s, s.len() as int),
                                },
                            },
                        }
                    } else {
                        LexStep::Tok { kind: TokenKindView::HashWord(hw), at: k, next: e1 }
                    }
                },
                None => unknown_word_fail(s, k, w1),
            }
        }
    } else if is_alpha(s[k]) {
        let e = alnum_end(s, k);
        let w = s.subrange(k, e);
        match keyword_of(w) {
            Some(kw) => LexStep::Tok { kind: TokenKindView::Keyword(kw), at: k, next: e },
            None => LexStep::Tok { kind: TokenKindView::VarDef(w), at: k, next: e },
        }
    } else {
        let e = text_end(s, k);
        let t = trimmed(s.subrange(k, e));
        proof {
            lemma_text_end_bounds(s, k);
            lemma_text_end_bounds(s, k + 1);
        }
        if t.len() == 0 {
            lex_step(s, e)
        } else {
            LexStep::Tok { kind: TokenKindView::Text(t), at: k, next: e }
        }
    }
}

/// Every scanning step stays inside the input, and every token other than
/// `Eof` consumes at least one character; `Eof` sits exactly at the end.
pub proof fn lemma_lex_step_progress(s: Seq<char>, i: int)
    requires
        0 <= i <= s.len(),
    ensures
        (match lex_step(s, i) {
            LexStep::Tok { kind, at, next } => {
                &&& i <= at <= next <= s.len()
                &&& skip_blanks(s, i) <= at
                &&& (kind is Eof <==> at == next)
                &&& (kind is Eof ==> at == s.len())
            },
            LexStep::Fail { err } => true,
        }),
    decreases s.len() - i,
{
    let k = skip_blanks(s, i);
    lemma_skip_blanks_bounds(s, i);
    if k >= s.len() {
    } else if s[k] == '\n' {
    } else if s[k] == '#' {
        let e1 = alpha_end(s, k + 1);
        let w1 = s.subrange(k + 1, e1);
        lemma_alpha_end_bounds(s, k + 1);
        if opens_pair(w1) && e1 < s.len() && s[e1] == ' ' {
            lemma_alpha_end_bounds(s, e1 + 1);
        } else {
            if hash_word_of(w1) == Some(HashWord::Obtw) {
                lemma_comment_end_bounds(s, e1);
                match comment_end(s, e1) {
                    Some(j) => lemma_lex_step_progress(s, j),
                    None => (),
                }
            }
        }
    } else if is_alpha(s[k]) {
        lemma_alnum_end_bounds(s, k);
        lemma_alnum_end_bounds(s, k + 1);
        assert(alnum_end(s, k) > k);
    } else {
        let e = text_end(s, k);
        lemma_text_end_bounds(s, k);
        lemma_text_end_bounds(s, k + 1);
        assert(e > k);
        if trimmed(s.subrange(k, e)).len() == 0 {
            lemma_lex_step_progress(s, e);
        }
    }
}

/// The token sequence obtained by scanning from position `i` to the end of
/// the input, or the first lexical error.
pub open spec fn lex_all(s: Seq<char>, i: int) -> Result<Seq<TokenView>, LexErrorView>
    decreases s.len() - i,
    when 0 <= i <= s.len()
{
    match lex_step(s, i) {
        LexStep::Fail { err } => Err(err),
        LexStep::Tok { kind, at, next } => {
            let tv = TokenView { kind, line: line_at(s, at), col: col_at(s, at) };
            if kind is Eof {
                Ok(seq![tv])
            } else {
                proof {
                    lemma_lex_step_progress(s, i);
                }
                match lex_all(s, next) {
                    Err(e) => Err(e),
                    Ok(rest) => Ok(seq![tv] + rest),
                }
            }
        },
    }
}

fn find_skip_blanks(chars: &Vec<char>, i: usize) -> (r: usize)
    requires
        i <= chars@.len(),
    ensures
        r == skip_blanks(chars@, i as int),
        i <= r <= chars@.len(),
{
    let mut j = i;
    while j < chars.len() && blank_char(chars[j])
        invariant
            i <= j <= chars@.len(),
            skip_blanks(chars@, i as int) == skip_blanks(chars@, j as int),
        decreases chars@.len() - j,
    {
        j += 1;
    }
    j
}

fn find_alpha_end(chars: &Vec<char>, i: usize) -> (r: usize)
    requires
        i <= chars@.len(),
    ensures
        r == alpha_end(chars@, i as int),
        i <= r <= chars@.len(),
{
    let mut j = i;
    while j < chars.len() && alpha_char(chars[j])
        invariant
            i <= j <= chars@.len(),
            alpha_end(chars@, i as int) == alpha_end(chars@, j as int),
        decreases chars@.len() - j,
    {
        j += 1;
    }
    j
}

fn find_alnum_end(chars: &Vec<char>, i: usize) -> (r: usize)
    requires
        i <= chars@.len(),
    ensures
        r == alnum_end(chars@, i as int),
        i <= r <= chars@.len(),
{
    let mut j = i;
    while j < chars.len() && alnum_char(chars[j])
        invariant
            i <= j <= chars@.len(),
            alnum_end(chars@, i as int) == alnum_end(chars@, j as int),
        decreases chars@.len() - j,
    {
        j += 1;
    }
    j
}

fn find_text_end(chars: &Vec<char>, i: usize) -> (r: usize)
    requires
        i <= chars@.len(),
    ensures
        r == text_end(chars@, i as int),
        i <= r <= chars@.len(),
{
    let mut j = i;
    while j < chars.len() && chars[j] != '\n' && chars[j] != '#'
        invariant
            i <= j <= chars@.len(),
            text_end(chars@, i as int) == text_end(chars@, j as int),
        decreases chars@.len() - j,
    {
        j += 1;
    }
    j
}

/// Whether `chars[start..end]` spells the upper-case word `lit`, ignoring case.
fn range_ci_matches(chars: &Vec<char>, start: usize, end: usize, lit: &str) -> (r: bool)
    requires
        start <= end <= chars@.len(),
    ensures
        r == ci_seq_eq(chars@.subrange(start as int, end as int), lit@),
{
    let n = lit.unicode_len();
    if end - start != n {
        return false;
    }
    let mut i: usize = 0;
    while i < n
        invariant
            start <= end <= chars@.len(),
            n == lit@.len(),
            end - start == n,
            0 <= i <= n,
            forall|j: int| 0 <= j < i ==> crate::text::ci_eq(
                chars@.subrange(start as int, end as int)[j],
                #[trigger] lit@[j],
            ),
        decreases n - i,
    {
        if !ci_eq_char(chars[start + i], lit.get_char(i)) {
            proof {
                assert(chars@.subrange(start as int, end as int)[i as int] == chars@[start + i]);
            }
            return false;
        }
        i += 1;
    }
    true
}

fn classify_hash_range(chars: &Vec<char>, start: usize, end: usize) -> (r: Option<HashWord>)
    requires
        start <= end <= chars@.len(),
    ensures
        r == hash_word_of(chars@.subrange(start as int, end as int)),
{
    if range_ci_matches(chars, start, end, "HAI") {
        Some(HashWord::Hai)
    } else if range_ci_matches(chars, start, end, "KTHXBYE") {
        Some(HashWord::Kthxbye)
    } else if range_ci_matches(chars, start, end, "OBTW") {
        Some(HashWord::Obtw)
    } else if range_ci_matches(chars, start, end, "TLDR") {
        Some(HashWord::Tldr)
    } else if range_ci_matches(chars, start, end, "MAEK") {
        Some(HashWord::Maek)
    } else if range_ci_matches(chars, start, end, "OIC") {
        Some(HashWord::Oic)
    } else if range_ci_matches(chars, start, end, "GIMMEH") {
        Some(HashWord::Gimmeh)
    } else if range_ci_matches(chars, start, end, "MKAY") {
        Some(HashWord::Mkay)
    } else {
        None
    }
}

fn classify_keyword_range(chars: &Vec<char>, start: usize, end: usize) -> (r: Option<Keyword>)
    requires
        start <= end <= chars@.len(),
    ensures
        r == keyword_of(chars@.subrange(start as int, end as int)),
{
    if range_ci_matches(chars, start, end, "HEAD") {
        Some(Keyword::Head)
    } else if range_ci_matches(chars, start, end, "TITLE") {
        Some(Keyword::Title)
    } else if range_ci_matches(chars, start, end, "PARAGRAF") {
        Some(Keyword::Paragraf)
    } else if range_ci_matches(chars, start, end, "BOLD") {
        Some(Keyword::Bold)
    } else if range_ci_matches(chars, start, end, "ITALICS") {
        Some(Keyword::Italics)
    } else if range_ci_matches(chars, start, end, "LIST") {
        Some(Keyword::List)
    } else if range_ci_matches(chars, start, end, "ITEM") {
        Some(Keyword::Item)
    } else if range_ci_matches(chars, start, end, "NEWLINE") {
        Some(Keyword::Newline)
    } else if range_ci_matches(chars, start, end, "SOUNDZ") {
        Some(Keyword::Soundz)
    } else if range_ci_matches(chars, start, end, "VIDZ") {
        Some(Keyword::Vidz)
    } else {
        None
    }
}

fn find_comment_end(chars: &Vec<char>, i: usize) -> (r: Option<usize>)
    requires
        i <= chars@.len(),
    ensures
        (match r {
            Some(e) => comment_end(chars@, i as int) == Some(e as int) && i < e <= chars@.len(),
            None => comment_end(chars@, i as int) is None,
        }),
{
    let ghost s = chars@;
    let mut p = i;
    loop
        invariant
            i <= p <= s.len(),
            s == chars@,
            comment_end(s, i as int) == comment_end(s, p as int),
        decreases s.len() - p,
    {
        if p == chars.len() {
            return None;
        }
        if chars[p] == '#' {
            let e = find_alpha_end(chars, p + 1);
            if range_ci_matches(chars, p + 1, e, "TLDR") {
                proof {
                    lemma_comment_end_bounds(s, i as int);
                }
                return Some(e);
            }
            p = e;
        } else {
            p = p + 1;
        }
    }
}

/// Character-by-character scanner over a borrowed source text.
///
/// Tracks the 1-indexed line and column of the next unread character, and
/// hands out one classified token per call of [`Lexer::get_next_token`].
pub struct Lexer<'a> {
    src: &'a str,
    chars: Vec<char>,
    pos: usize,
    line: usize,
    col: usize,
}

impl<'a> Lexer<'a> {
    /// The scanned text.
    pub closed spec fn input(&self) -> Seq<char> {
        self.src@
    }

    /// How many characters have been consumed.
    pub closed spec fn at(&self) -> int {
        self.pos as int
    }

    /// The scanner's invariant: the character buffer mirrors the text, the
    /// cursor is inside it, and line/column track the cursor exactly.
    pub closed spec fn wf(&self) -> bool {
        &&& self.chars@ == self.src@
        &&& self.pos <= self.chars.len()
        &&& self.chars@.len() < usize::MAX
        &&& self.line == line_at(self.src@, self.pos as int)
        &&& self.col == col_at(self.src@, self.pos as int)
    }

    /// Creates a lexer at line 1, column 1 of `src`.
    pub fn new(src: &'a str) -> (r: Self)
        requires
            src@.len() < usize::MAX,
        ensures
            r.wf(),
            r.input() == src@,
            r.at() == 0,
    {
        let n = src.unicode_len();
        let mut chars: Vec<char> = Vec::new();
        let mut i: usize = 0;
        while i < n
            invariant
                n == src@.len(),
                0 <= i <= n,
                chars@ == src@.take(i as int),
            decreases n - i,
        {
            chars.push(src.get_char(i));
            proof {
                assert(chars@ =~= src@.take(i + 1));
            }
            i += 1;
        }
        proof {
            assert(chars@ =~= src@);
        }
        Lexer { src, chars, pos: 0, line: 1, col: 1 }
    }

    /// Consumes one character, keeping line and column exact.
    fn bump(&mut self)
        requires
            old(self).wf(),
            old(self).pos < old(self).chars@.len(),
        ensures
            final(self).wf(),
            final(self).src == old(self).src,
            final(self).chars == old(self).chars,
            final(self).pos == old(self).pos + 1,
    {
        proof {
            lemma_position_bounds(self.src@, self.pos as int);
        }
        if self.chars[self.pos] == '\n' {
            self.line = self.line + 1;
            self.col = 1;
        } else {
            self.col = self.col + 1;
        }
        self.pos = self.pos + 1;
    }

    /// Consumes characters up to position `j`.
    fn advance_to(&mut self, j: usize)
        requires
            old(self).wf(),
            old(self).pos <= j <= old(self).chars@.len(),
        ensures
            final(self).wf(),
            final(self).src == old(self).src,
            final(self).chars == old(self).chars,
            final(self).pos == j,
    {
        while self.pos < j
            invariant
                self.wf(),
                self.src == old(self).src,
                self.chars == old(self).chars,
                self.pos <= j <= self.chars@.len(),
            decreases j - self.pos,
        {
            self.bump();
        }
    }

    /// Whether `w` is the exact upper-case spelling of a hashtag word,
    /// two-word forms included.
    pub fn is_hash_word(&self, w: &str) -> (r: bool)
        ensures
            r == (w@ == "HAI"@ || w@ == "KTHXBYE"@ || w@ == "OBTW"@ || w@ == "TLDR"@
                || w@ == "MAEK"@ || w@ == "OIC"@ || w@ == "GIMMEH"@ || w@ == "MKAY"@
                || w@ == "I HAZ"@ || w@ == "IT IZ"@ || w@ == "LEMME SEE"@),
    {
        str_eq(w, "HAI") || str_eq(w, "KTHXBYE") || str_eq(w, "OBTW") || str_eq(w, "TLDR")
            || str_eq(w, "MAEK") || str_eq(w, "OIC") || str_eq(w, "GIMMEH") || str_eq(w, "MKAY")
            || str_eq(w, "I HAZ") || str_eq(w, "IT IZ") || str_eq(w, "LEMME SEE")
    }

    /// Whether `w` is the exact upper-case spelling of a bare keyword.
    pub fn is_keyword(&self, w: &str) -> (r: bool)
        ensures
            r == (w@ == "HEAD"@ || w@ == "TITLE"@ || w@ == "PARAGRAF"@ || w@ == "BOLD"@
                || w@ == "ITALICS"@ || w@ == "LIST"@ || w@ == "ITEM"@ || w@ == "NEWLINE"@
                || w@ == "SOUNDZ"@ || w@ == "VIDZ"@),
    {
        str_eq(w, "HEAD") || str_eq(w, "TITLE") || str_eq(w, "PARAGRAF") || str_eq(w, "BOLD")
            || str_eq(w, "ITALICS") || str_eq(w, "LIST") || str_eq(w, "ITEM")
            || str_eq(w, "NEWLINE") || str_eq(w, "SOUNDZ") || str_eq(w, "VIDZ")
    }

    /// Scans and returns the next token, exactly as `lex_step` describes:
    /// blanks are skipped, comments and blank text runs are passed over, and
    /// the token's position is the position of its first character.
    #[verifier::loop_isolation(false)]
    pub fn get_next_token(&mut self) -> (r: Result<Token, LexError>)
        requires
            old(self).wf(),
        ensures
            final(self).wf(),
            final(self).input() == old(self).input(),
            (match lex_step(old(self).input(), old(self).at()) {
                LexStep::Tok { kind, at, next } => {
                    &&& r matches Ok(t)
                    &&& t@.kind == kind
                    &&& t@.line == line_at(final(self).input(), at)
                    &&& t@.col == col_at(final(self).input(), at)
                    &&& final(self).at() == next
                },
                LexStep::Fail { err } => r matches Err(e) && e@ == err,
            }),
    {
        let ghost s = self.src@;
        let ghost i0 = self.pos as int;
        loop
            invariant
                self.wf(),
                self.src@ == s,
                i0 <= self.pos as int,
                lex_step(s, i0) == lex_step(s, self.pos as int),
            decreases s.len() - self.pos,
        {
            let ghost cur = self.pos as int;
            let k = find_skip_blanks(&self.chars, self.pos);
            self.advance_to(k);
            if k == self.chars.len() {
                return Ok(Token { kind: TokenKind::Eof, line: self.line, col: self.col });
            }
            let c = self.chars[k];
            if c == '\n' {
                let line = self.line;
                let col = self.col;
                self.bump();
                return Ok(Token { kind: TokenKind::Newline, line, col });
            }
            if c == '#' {
                let start_line = self.line;
                let start_col = self.col;
                let e1 = find_alpha_end(&self.chars, k + 1);
                let ghost w1 = s.subrange(k + 1 as int, e1 as int);
                let pair_open = range_ci_matches(&self.chars, k + 1, e1, "I")
                    || range_ci_matches(&self.chars, k + 1, e1, "IT")
                    || range_ci_matches(&self.chars, k + 1, e1, "LEMME");
                if pair_open && e1 < self.chars.len() && self.chars[e1] == ' ' {
                    let e2 = find_alpha_end(&self.chars, e1 + 1);
                    let hw = if range_ci_matches(&self.chars, k + 1, e1, "I")
                        && range_ci_matches(&self.chars, e1 + 1, e2, "HAZ") {
                        Some(HashWord::IHaz)
                    } else if range_ci_matches(&self.chars, k + 1, e1, "IT")
                        && range_ci_matches(&self.chars, e1 + 1, e2, "IZ") {
                        Some(HashWord::ItIz)
                    } else if range_ci_matches(&self.chars, k + 1, e1, "LEMME")
                        && range_ci_matches(&self.chars, e1 + 1, e2, "SEE") {
                        Some(HashWord::LemmeSee)
                    } else {
                        None
                    };
                    match hw {
                        Some(hw) => {
                            self.advance_to(e2);
                            return Ok(Token {
                                kind: TokenKind::HashWord(hw),
                                line: start_line,
                                col: start_col,
                            });
                        },
                        None => {
                            let word = self.src.substring_char(k + 1, e1).to_owned();
                            return Err(LexError {
                                kind: LexErrorKind::UnknownHashWord { word },
                                line: start_line,
                                col: start_col,
                            });
                        },
                    }
                } else {
                    match classify_hash_range(&self.chars, k + 1, e1) {
                        Some(HashWord::Obtw) => {
                            match find_comment_end(&self.chars, e1) {
                                Some(j) => {
                                    self.advance_to(j);
                                    proof {
                                        assert(cur < j as int);
                                        assert(lex_step(s, cur) == lex_step(s, j as int));
                                    }
                                },
                                None => {
                                    let n = self.chars.len();
                                    self.advance_to(n);
                                    return Err(LexError {
                                        kind: LexErrorKind::UnclosedComment,
                                        line: self.line,
                                        col: self.col,
                                    });
                                },
                            }
                        },
                        Some(hw) => {
                            self.advance_to(e1);
                            return Ok(Token {
                                kind: TokenKind::HashWord(hw),
                                line: start_line,
                                col: start_col,
                            });
                        },
                        None => {
                            let word = self.src.substring_char(k + 1, e1).to_owned();
                            return Err(LexError {
                                kind: LexErrorKind::UnknownHashWord { word },
                                line: start_line,
                                col: start_col,
                            });
                        },
                    }
                }
            } else if alpha_char(c) {
                let start_line = self.line;
                let start_col = self.col;
                let e = find_alnum_end(&self.chars, k);
                let kind = match classify_keyword_range(&self.chars, k, e) {
                    Some(kw) => TokenKind::Keyword(kw),
                    None => TokenKind::VarDef(self.src.substring_char(k, e).to_owned()),
                };
                self.advance_to(e);
                return Ok(Token { kind, line: start_line, col: start_col });
            } else {
                let start_line = self.line;
                let start_col = self.col;
                let e = find_text_end(&self.chars, k);
                let ghost sub = s.subrange(k as int, e as int);
                let mut a = k;
                while a < e && space_char(self.chars[a])
                    invariant
                        self.wf(),
                        self.src@ == s,
                        k <= a <= e <= s.len(),
                        sub == s.subrange(k as int, e as int),
                        trim_start_idx(sub, 0) == trim_start_idx(sub, a - k),
                    decreases e - a,
                {
                    a += 1;
                }
                proof {
                    assert(trim_start_idx(sub, 0) == a - k);
                }
                if a == e {
                    // the run is all whitespace: no token, scan on
                    proof {
                        crate::text::lemma_trim_end_bounds(sub, sub.len() as int);
                        assert(trimmed(sub).len() == 0);
                    }
                    self.advance_to(e);
                    proof {
                        lemma_text_end_bounds(s, k + 1 as int);
                        assert(e > k);
                        assert(lex_step(s, cur) == lex_step(s, e as int));
                    }
                } else {
                    let mut b = e;
                    while b > k && space_char(self.chars[b - 1])
                        invariant
                            self.wf(),
                            self.src@ == s,
                            k <= b <= e <= s.len(),
                            sub == s.subrange(k as int, e as int),
                            trim_end_idx(sub, sub.len() as int) == trim_end_idx(sub, b - k),
                        decreases b,
                    {
                        b -= 1;
                    }
                    proof {
                        assert(trim_end_idx(sub, sub.len() as int) == b - k);
                        assert(!is_space(sub[a - k]));
                        crate::text::lemma_trim_end_above(sub, sub.len() as int, a - k);
                        assert(a - k < b - k);
                        assert(trimmed(sub) =~= s.subrange(a as int, b as int));
                        assert(trimmed(sub).len() > 0);
                        assert(lex_step(s, cur) == LexStep::Tok {
                            kind: TokenKindView::Text(trimmed(sub)),
                            at: k as int,
                            next: e as int,
                        });
                    }
                    let content = self.src.substring_char(a, b).to_owned();
                    self.advance_to(e);
                    return Ok(Token {
                        kind: TokenKind::Text(content),
                        line: start_line,
                        col: start_col,
                    });
                }
            }
        }
    }
}

/// Scans the whole input: the returned token sequence is exactly `lex_all`
/// of the text, ends with `Eof`, and exists for every input on which
/// `lex_all` does not fail.
#[verifier::loop_isolation(false)]
pub fn tokenize(src: &str) -> (r: Result<Vec<Token>, LexError>)
    requires
        src@.len() < usize::MAX,
    ensures
        (match r {
            Ok(v) => {
                &&& lex_all(src@, 0) == Ok::<_, LexErrorView>(tokens_view(v@))
                &&& v@.len() >= 1
                &&& v@.last().kind is Eof
                &&& (forall|j: int| 0 <= j < v@.len() - 1 ==> !(#[trigger] v@[j].kind is Eof))
            },
            Err(e) => lex_all(src@, 0) == Err::<Seq<TokenView>, _>(e@),
        }),
{
    let ghost s = src@;
    let mut lx = Lexer::new(src);
    let mut out: Vec<Token> = Vec::new();
    loop
        invariant
            lx.wf(),
            lx.input() == s,
            s.len() < usize::MAX,
            0 <= lx.at() <= s.len(),
            (match lex_all(s, lx.at()) {
                Ok(rest) => lex_all(s, 0) == Ok::<_, LexErrorView>(tokens_view(out@) + rest),
                Err(e) => lex_all(s, 0) == Err::<Seq<TokenView>, _>(e),
            }),
            forall|j: int| 0 <= j < out@.len() ==> !(#[trigger] out@[j].kind is Eof),
        decreases s.len() - lx.at(),
    {
        let ghost pos0 = lx.at();
        proof {
            lemma_lex_step_progress(s, pos0);
        }
        match lx.get_next_token() {
            Err(e) => {
                proof {
                    assert(lex_all(s, pos0) == Err::<Seq<TokenView>, LexErrorView>(e@));
                }
                return Err(e);
            },
            Ok(t) => {
                let is_eof = matches!(t.kind, TokenKind::Eof);
                let ghost old_out = out@;
                out.push(t);
                proof {
                    assert(tokens_view(out@) =~= tokens_view(old_out) + seq![t@]);
                }
                if is_eof {
                    proof {
                        let step = lex_step(s, pos0);
                        match step {
                            LexStep::Tok { kind, at, next } => {
                                assert(lex_all(s, pos0) == Ok::<_, LexErrorView>(seq![t@]));
                                assert(tokens_view(old_out) + seq![t@] =~= tokens_view(out@));
                            },
                            LexStep::Fail { err } => {
                                assert(false);
                            },
                        }
                    }
                    return Ok(out);
                }
                proof {
                    let step = lex_step(s, pos0);
                    match step {
                        LexStep::Tok { kind, at, next } => {
                            let tv = TokenView { kind, line: line_at(s, at), col: col_at(s, at) };
                            assert(tv == t@);
                            assert(lex_all(s, pos0) == (match lex_all(s, next) {
                                Err(e) => Err::<Seq<TokenView>, _>(e),
                                Ok(rest) => Ok::<_, LexErrorView>(seq![tv] + rest),
                            }));
                            match lex_all(s, next) {
                                Err(e) => {},
                                Ok(rest) => {
                                    assert(tokens_view(old_out) + (seq![tv] + rest)
                                        =~= tokens_view(out@) + rest);
                                },
                            }
                        },
                        LexStep::Fail { err } => {
                            assert(false);
                        },
                    }
                }
            },
        }
    }
}

} // verus!
