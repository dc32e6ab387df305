//! Syntax analysis: a recursive-descent parser with one token of lookahead,
//! building an ordered tree of typed nodes from the token sequence.
//!
//! The grammar, including its deliberate tolerances (content loops that stop
//! at the first unmatched token and leave the enclosing rule to report the
//! error), is written out once as the specification functions `p_program`,
//! `p_body`, and their companions; the executable parser is proved to return
//! exactly what they describe.

use vstd::prelude::*;

use crate::text::trimmed;
use crate::token::{
    HashWord, Keyword, Token, TokenKind, TokenKindView, TokenView, keyword_name, keyword_text,
    tokens_view,
};
use crate::lexer::{LexError, lex_all, tokenize};

verus! {

/// A node of the syntax tree. `VariableAssignment.name` is left empty by the
/// parser: the grammar does not carry a name to the assignment site, and the
/// later passes bind the assignment to the most recently declared variable.
#[derive(Debug)]
pub enum ASTNode {
    Program { children: Vec<ASTNode> },
    HeadSection { children: Vec<ASTNode> },
    ParagrafSection { children: Vec<ASTNode> },
    ListSection { children: Vec<ASTNode> },
    VariableDeclaration { name: String },
    VariableAssignment { name: String, value: String },
    VariableReference { name: String },
    Title { content: String },
    Text { content: String },
    Bold { content: Vec<ASTNode> },
    Italics { content: Vec<ASTNode> },
    Item { content: Vec<ASTNode> },
    Newline,
    Sound { url: String },
    Video { url: String },
}

/// Mathematical image of a syntax tree: strings become character sequences,
/// child vectors become sequences of images.
pub enum AstView {
    Program { children: Seq<AstView> },
    HeadSection { children: Seq<AstView> },
    ParagrafSection { children: Seq<AstView> },
    ListSection { children: Seq<AstView> },
    VariableDeclaration { name: Seq<char> },
    VariableAssignment { name: Seq<char>, value: Seq<char> },
    VariableReference { name: Seq<char> },
    Title { content: Seq<char> },
    Text { content: Seq<char> },
    Bold { content: Seq<AstView> },
    Italics { content: Seq<AstView> },
    Item { content: Seq<AstView> },
    Newline,
    Sound { url: Seq<char> },
    Video { url: Seq<char> },
}

pub open spec fn ast_view(n: ASTNode) -> AstView
    decreases n,
{
    match n {
        ASTNode::Program { children } => AstView::Program { children: asts_view(children@) },
        ASTNode::HeadSection { children } => AstView::HeadSection {
            children: asts_view(children@),
        },
        ASTNode::ParagrafSection { children } => AstView::ParagrafSection {
            children: asts_view(children@),
        },
        ASTNode::ListSection { children } => AstView::ListSection {
            children: asts_view(children@),
        },
        ASTNode::VariableDeclaration { name } => AstView::VariableDeclaration { name: name@ },
        ASTNode::VariableAssignment { name, value } => AstView::VariableAssignment {
            name: name@,
            value: value@,
        },
        ASTNode::VariableReference { name } => AstView::VariableReference { name: name@ },
        ASTNode::Title { content } => AstView::Title { content: content@ },
        ASTNode::Text { content } => AstView::Text { content: content@ },
        ASTNode::Bold { content } => AstView::Bold { content: asts_view(content@) },
        ASTNode::Italics { content } => AstView::Italics { content: asts_view(content@) },
        ASTNode::Item { content } => AstView::Item { content: asts_view(content@) },
        ASTNode::Newline => AstView::Newline,
        ASTNode::Sound { url } => AstView::Sound { url: url@ },
        ASTNode::Video { url } => AstView::Video { url: url@ },
    }
}

pub open spec fn asts_view(s: Seq<ASTNode>) -> Seq<AstView>
    decreases s,
{
    if s.len() == 0 {
        Seq::empty()
    } else {
        seq![ast_view(s[0])] + asts_view(s.drop_first())
    }
}

impl View for ASTNode {
    type V = AstView;

    open spec fn view(&self) -> AstView {
        ast_view(*self)
    }
}

pub proof fn lemma_asts_view_len(s: Seq<ASTNode>)
    ensures
        asts_view(s).len() == s.len(),
    decreases s,
{
    if s.len() > 0 {
        lemma_asts_view_len(s.drop_first());
    }
}

pub proof fn lemma_asts_view_index(s: Seq<ASTNode>, k: int)
    requires
        0 <= k < s.len(),
    ensures
        asts_view(s).len() == s.len(),
        asts_view(s)[k] == ast_view(s[k]),
    decreases s.len(),
{
    lemma_asts_view_len(s);
    if k > 0 {
        lemma_asts_view_index(s.drop_first(), k - 1);
    }
}

pub proof fn lemma_asts_view_push(s: Seq<ASTNode>, n: ASTNode)
    ensures
        asts_view(s.push(n)) == asts_view(s).push(ast_view(n)),
    decreases s.len(),
{
    if s.len() == 0 {
        assert(s.push(n).drop_first() =~= Seq::<ASTNode>::empty());
        assert(asts_view(Seq::<ASTNode>::empty()) == Seq::<AstView>::empty());
        assert(s.push(n)[0] == n);
        assert(asts_view(s.push(n)) == seq![ast_view(n)] + Seq::<AstView>::empty());
        assert(asts_view(s.push(n)) =~= asts_view(s).push(ast_view(n)));
    } else {
        assert(s.push(n).drop_first() =~= s.drop_first().push(n));
        assert(s.push(n)[0] == s[0]);
        lemma_asts_view_push(s.drop_first(), n);
        assert(asts_view(s.push(n)) =~= asts_view(s).push(ast_view(n)));
    }
}

/// Why parsing failed.
#[derive(Clone, Copy, PartialEq, Eq, Structural, Debug)]
pub enum ParseErrorKind {
    /// The named hashtag word was required and something else was found.
    ExpectedHashWord { expected: HashWord },
    /// The named keyword was required and something else was found.
    ExpectedKeyword { expected: Keyword },
    /// A newline was required and something else was found.
    ExpectedNewline,
    /// `#MAEK` was not followed by a keyword.
    ExpectedSectionKeyword,
    /// `#MAEK` was followed by a keyword that names no section.
    UnknownSectionType,
    /// A section rule started on something other than `#MAEK`.
    ExpectedSectionStart,
    /// A title run contained a token that cannot belong to it.
    UnexpectedTokenInTitle,
    /// A declaration or reference named no variable.
    ExpectedVariableName,
    /// `#GIMMEH` was not followed by a style keyword.
    ExpectedStyleKeyword,
    /// A hashtag word that no paragraph rule starts with.
    UnexpectedHashWordInParagraf,
    /// A token that no paragraph rule starts with.
    UnexpectedTokenInParagraf,
    /// Tokens remained after `#KTHXBYE` and trailing newlines.
    TrailingTokens,
    /// Never produced: a placeholder that keeps the parsing recursion
    /// visibly well-founded where one rule hands its end position to the
    /// next (every rule strictly advances, so the guarded branch is dead).
    Stalled,
}

/// A fatal syntax error at the 1-indexed position of the offending token.
#[derive(Clone, Copy, PartialEq, Eq, Structural, Debug)]
pub struct ParseError {
    pub kind: ParseErrorKind,
    pub line: usize,
    pub col: usize,
}

pub struct ParseErrorView {
    pub kind: ParseErrorKind,
    pub line: int,
    pub col: int,
}

impl View for ParseError {
    type V = ParseErrorView;

    open spec fn view(&self) -> ParseErrorView {
        ParseErrorView { kind: self.kind, line: self.line as int, col: self.col as int }
    }
}

/// A well-formed token sequence: non-empty, ending in exactly one `Eof`.
pub open spec fn toks_wf(t: Seq<TokenView>) -> bool {
    &&& t.len() >= 1
    &&& t.last().kind is Eof
    &&& (forall|j: int| 0 <= j < t.len() - 1 ==> !(#[trigger] t[j].kind is Eof))
}

/// The error reported at token `i`.
pub open spec fn err_at(t: Seq<TokenView>, i: int, kind: ParseErrorKind) -> ParseErrorView {
    ParseErrorView { kind, line: t[i].line, col: t[i].col }
}

/// First position at or after `i` holding something other than a newline.
pub open spec fn skip_nl(t: Seq<TokenView>, i: int) -> int
    decreases t.len() - i,
    when 0 <= i < t.len() && toks_wf(t)
{
    if t[i].kind is Newline {
        skip_nl(t, i + 1)
    } else {
        i
    }
}

pub proof fn lemma_skip_nl_bounds(t: Seq<TokenView>, i: int)
    requires
        toks_wf(t),
        0 <= i < t.len(),
    ensures
        i <= skip_nl(t, i) < t.len(),
        !(t[skip_nl(t, i)].kind is Newline),
    decreases t.len() - i,
{
    if t[i].kind is Newline {
        lemma_skip_nl_bounds(t, i + 1);
    }
}

/// `<variable_decl> ::= #I HAZ <identifier>`
pub open spec fn p_vdecl(t: Seq<TokenView>, i: int) -> Result<(AstView, int), ParseErrorView> {
    if t[i].kind != TokenKindView::HashWord(HashWord::IHaz) {
        Err(err_at(t, i, ParseErrorKind::ExpectedHashWord { expected: HashWord::IHaz }))
    } else {
        match t[i + 1].kind {
            TokenKindView::VarDef(name) => Ok(
                (AstView::VariableDeclaration { name }, i + 2),
            ),
            _ => Err(err_at(t, i + 1, ParseErrorKind::ExpectedVariableName)),
        }
    }
}

/// `<variable_reference> ::= #LEMME SEE <identifier> #MKAY`
pub open spec fn p_vref(t: Seq<TokenView>, i: int) -> Result<(AstView, int), ParseErrorView> {
    if t[i].kind != TokenKindView::HashWord(HashWord::LemmeSee) {
        Err(err_at(t, i, ParseErrorKind::ExpectedHashWord { expected: HashWord::LemmeSee }))
    } else {
        match t[i + 1].kind {
            TokenKindView::VarDef(name) => {
                if t[i + 2].kind == TokenKindView::HashWord(HashWord::Mkay) {
                    Ok((AstView::VariableReference { name }, i + 3))
                } else {
                    Err(
                        err_at(
                            t,
                            i + 2,
                            ParseErrorKind::ExpectedHashWord { expected: HashWord::Mkay },
                        ),
                    )
                }
            },
            _ => Err(err_at(t, i + 1, ParseErrorKind::ExpectedVariableName)),
        }
    }
}

/// The raw text run of `<variable_assign>`: text and identifier tokens are
/// concatenated until `#MKAY`; anything else stops the run, and the missing
/// `#MKAY` is then the error.
pub open spec fn p_value_run(t: Seq<TokenView>, i: int, acc: Seq<char>) -> Result<
    (Seq<char>, int),
    ParseErrorView,
>
    decreases t.len() - i,
    when 0 <= i < t.len() && toks_wf(t)
{
    match t[i].kind {
        TokenKindView::HashWord(HashWord::Mkay) => Ok((acc, i + 1)),
        TokenKindView::Text(x) => p_value_run(t, i + 1, acc + x),
        TokenKindView::VarDef(x) => p_value_run(t, i + 1, acc + x),
        _ => Err(err_at(t, i, ParseErrorKind::ExpectedHashWord { expected: HashWord::Mkay })),
    }
}

/// `<variable_assign> ::= #IT IZ <value run> #MKAY`; the name is back-filled
/// by the later passes.
pub open spec fn p_vassign(t: Seq<TokenView>, i: int) -> Result<(AstView, int), ParseErrorView> {
    if t[i].kind != TokenKindView::HashWord(HashWord::ItIz) {
        Err(err_at(t, i, ParseErrorKind::ExpectedHashWord { expected: HashWord::ItIz }))
    } else {
        match p_value_run(t, i + 1, Seq::empty()) {
            Err(e) => Err(e),
            Ok((value, j)) => Ok(
                (
                    AstView::VariableAssignment {
                        name: Seq::empty(),
                        value: trimmed(value),
                    },
                    j,
                ),
            ),
        }
    }
}

/// The text run of a title: text and identifiers joined with single spaces,
/// newlines skipped, ended by `#MKAY`; any other token is an error.
pub open spec fn p_title_run(t: Seq<TokenView>, i: int, acc: Seq<char>) -> Result<
    (Seq<char>, int),
    ParseErrorView,
>
    decreases t.len() - i,
    when 0 <= i < t.len() && toks_wf(t)
{
    match t[i].kind {
        TokenKindView::HashWord(HashWord::Mkay) => Ok((acc, i + 1)),
        TokenKindView::Text(x) => p_title_run(
            t,
            i + 1,
            if acc.len() == 0 {
                x
            } else {
                acc + " "@ + x
            },
        ),
        TokenKindView::VarDef(x) => p_title_run(
            t,
            i + 1,
            if acc.len() == 0 {
                x
            } else {
                acc + " "@ + x
            },
        ),
        TokenKindView::Newline => p_title_run(t, i + 1, acc),
        _ => Err(err_at(t, i, ParseErrorKind::UnexpectedTokenInTitle)),
    }
}

/// `<head_content> ::= #GIMMEH TITLE <title run> #MKAY`
pub open spec fn p_head_content(t: Seq<TokenView>, i: int) -> Result<
    (AstView, int),
    ParseErrorView,
> {
    if t[i].kind != TokenKindView::HashWord(HashWord::Gimmeh) {
        Err(err_at(t, i, ParseErrorKind::ExpectedHashWord { expected: HashWord::Gimmeh }))
    } else if t[i + 1].kind != TokenKindView::Keyword(Keyword::Title) {
        Err(err_at(t, i + 1, ParseErrorKind::ExpectedKeyword { expected: Keyword::Title }))
    } else {
        match p_title_run(t, i + 2, Seq::empty()) {
            Err(e) => Err(e),
            Ok((content, j)) => Ok((AstView::Title { content: trimmed(content) }, j)),
        }
    }
}

/// The URL run of `SOUNDZ`/`VIDZ`: text and identifiers concatenated,
/// newlines skipped, ended by `#MKAY`; anything else stops the run and the
/// missing `#MKAY` is the error.
pub open spec fn p_url_run(t: Seq<TokenView>, i: int, acc: Seq<char>) -> Result<
    (Seq<char>, int),
    ParseErrorView,
>
    decreases t.len() - i,
    when 0 <= i < t.len() && toks_wf(t)
{
    match t[i].kind {
        TokenKindView::HashWord(HashWord::Mkay) => Ok((acc, i + 1)),
        TokenKindView::Text(x) => p_url_run(t, i + 1, acc + x),
        TokenKindView::VarDef(x) => p_url_run(t, i + 1, acc + x),
        TokenKindView::Newline => p_url_run(t, i + 1, acc),
        _ => Err(err_at(t, i, ParseErrorKind::ExpectedHashWord { expected: HashWord::Mkay })),
    }
}

/// The inline run of `BOLD`/`ITALICS` and of list items: text, identifiers
/// and nested variable references, ended by `#MKAY`; anything else stops the
/// run and the missing `#MKAY` is the error.
pub open spec fn p_inline_run(t: Seq<TokenView>, i: int, acc: Seq<AstView>) -> Result<
    (Seq<AstView>, int),
    ParseErrorView,
>
    decreases t.len() - i,
    when 0 <= i < t.len() && toks_wf(t)
{
    match t[i].kind {
        TokenKindView::HashWord(HashWord::Mkay) => Ok((acc, i + 1)),
        TokenKindView::HashWord(HashWord::LemmeSee) => match p_vref(t, i) {
            Err(e) => Err(e),
            Ok((n, j)) => {
                if i < j < t.len() {
                    p_inline_run(t, j, acc.push(n))
                } else {
                    Err(err_at(t, i, ParseErrorKind::Stalled))
                }
            },
        },
        TokenKindView::Text(x) => p_inline_run(t, i + 1, acc.push(AstView::Text { content: x })),
        TokenKindView::VarDef(x) => p_inline_run(t, i + 1, acc.push(AstView::Text { content: x })),
        _ => Err(err_at(t, i, ParseErrorKind::ExpectedHashWord { expected: HashWord::Mkay })),
    }
}

/// `<styled_text> ::= #GIMMEH <style> ... #MKAY`, with the asymmetries of
/// the grammar: `NEWLINE` ends at once with no `#MKAY`; `SOUNDZ`/`VIDZ`
/// gather a URL; `BOLD`/`ITALICS` gather inline content; any other style
/// keyword still gathers inline content but yields plain text naming it.
pub open spec fn p_styled(t: Seq<TokenView>, i: int) -> Result<(AstView, int), ParseErrorView> {
    if t[i].kind != TokenKindView::HashWord(HashWord::Gimmeh) {
        Err(err_at(t, i, ParseErrorKind::ExpectedHashWord { expected: HashWord::Gimmeh }))
    } else {
        match t[i + 1].kind {
            TokenKindView::Keyword(style) => {
                if style == Keyword::Newline {
                    Ok((AstView::Newline, i + 2))
                } else if style == Keyword::Soundz || style == Keyword::Vidz {
                    match p_url_run(t, i + 2, Seq::empty()) {
                        Err(e) => Err(e),
                        Ok((url, j)) => {
                            if style == Keyword::Soundz {
                                Ok((AstView::Sound { url: trimmed(url) }, j))
                            } else {
                                Ok((AstView::Video { url: trimmed(url) }, j))
                            }
                        },
                    }
                } else {
                    match p_inline_run(t, i + 2, Seq::empty()) {
                        Err(e) => Err(e),
                        Ok((content, j)) => {
                            if style == Keyword::Bold {
                                Ok((AstView::Bold { content }, j))
                            } else if style == Keyword::Italics {
                                Ok((AstView::Italics { content }, j))
                            } else {
                                Ok(
                                    (
                                        AstView::Text {
                                            content: keyword_text(style) + " text"@,
                                        },
                                        j,
                                    ),
                                )
                            }
                        },
                    }
                }
            },
            _ => Err(err_at(t, i + 1, ParseErrorKind::ExpectedStyleKeyword)),
        }
    }
}

/// `<list_item> ::= #GIMMEH ITEM <inline run> #MKAY`
pub open spec fn p_item(t: Seq<TokenView>, i: int) -> Result<(AstView, int), ParseErrorView> {
    if t[i].kind != TokenKindView::HashWord(HashWord::Gimmeh) {
        Err(err_at(t, i, ParseErrorKind::ExpectedHashWord { expected: HashWord::Gimmeh }))
    } else if t[i + 1].kind != TokenKindView::Keyword(Keyword::Item) {
        Err(err_at(t, i + 1, ParseErrorKind::ExpectedKeyword { expected: Keyword::Item }))
    } else {
        match p_inline_run(t, i + 2, Seq::empty()) {
            Err(e) => Err(e),
            Ok((content, j)) => Ok((AstView::Item { content }, j)),
        }
    }
}

/// The items of a head section: `#GIMMEH TITLE ... #MKAY` runs up to `#OIC`,
/// with newlines skipped in between; anything else means the `#OIC` is
/// missing.
pub open spec fn p_head_items(t: Seq<TokenView>, i: int, acc: Seq<AstView>) -> Result<
    (AstView, int),
    ParseErrorView,
>
    decreases t.len() - i,
    when 0 <= i < t.len() && toks_wf(t)
{
    let m = skip_nl(t, i);
    proof {
        lemma_skip_nl_bounds(t, i);
    }
    match t[m].kind {
        TokenKindView::HashWord(HashWord::Oic) => Ok(
            (AstView::HeadSection { children: acc }, m + 1),
        ),
        TokenKindView::HashWord(HashWord::Gimmeh) => match p_head_content(t, m) {
            Err(e) => Err(e),
            Ok((n, m2)) => {
                if m < m2 < t.len() {
                    p_head_items(t, m2, acc.push(n))
                } else {
                    Err(err_at(t, m, ParseErrorKind::Stalled))
                }
            },
        },
        _ => Err(err_at(t, m, ParseErrorKind::ExpectedHashWord { expected: HashWord::Oic })),
    }
}

/// `<head_section> ::= HEAD <head items> #OIC` (the `#MAEK` was consumed by
/// the section dispatch).
pub open spec fn p_head_section(t: Seq<TokenView>, i: int) -> Result<
    (AstView, int),
    ParseErrorView,
> {
    if t[i].kind != TokenKindView::Keyword(Keyword::Head) {
        Err(err_at(t, i, ParseErrorKind::ExpectedKeyword { expected: Keyword::Head }))
    } else {
        p_head_items(t, skip_nl(t, i + 1), Seq::empty())
    }
}

/// The items of a list: `#GIMMEH ITEM ... #MKAY` runs up to `#OIC`, with
/// newlines skipped after each item.
pub open spec fn p_list_items(t: Seq<TokenView>, i: int, acc: Seq<AstView>) -> Result<
    (AstView, int),
    ParseErrorView,
>
    decreases t.len() - i,
    when 0 <= i < t.len() && toks_wf(t)
{
    match t[i].kind {
        TokenKindView::HashWord(HashWord::Oic) => Ok(
            (AstView::ListSection { children: acc }, i + 1),
        ),
        _ => match p_item(t, i) {
            Err(e) => Err(e),
            Ok((n, j)) => {
                if i < j < t.len() {
                    proof {
                        lemma_skip_nl_bounds(t, j);
                    }
                    p_list_items(t, skip_nl(t, j), acc.push(n))
                } else {
                    Err(err_at(t, i, ParseErrorKind::Stalled))
                }
            },
        },
    }
}

/// `<list_section> ::= LIST <list items> #OIC`.
pub open spec fn p_list_section(t: Seq<TokenView>, i: int) -> Result<
    (AstView, int),
    ParseErrorView,
> {
    if t[i].kind != TokenKindView::Keyword(Keyword::List) {
        Err(err_at(t, i, ParseErrorKind::ExpectedKeyword { expected: Keyword::List }))
    } else {
        p_list_items(t, skip_nl(t, i + 1), Seq::empty())
    }
}

/// One piece of paragraph content: a declaration, assignment, reference,
/// styled text, nested section, plain text, or a first-class newline.
pub open spec fn p_paragraf_content(t: Seq<TokenView>, i: int) -> Result<
    (AstView, int),
    ParseErrorView,
>
    decreases t.len() - i, 1int,
    when 0 <= i < t.len() && toks_wf(t)
{
    match t[i].kind {
        TokenKindView::HashWord(HashWord::IHaz) => p_vdecl(t, i),
        TokenKindView::HashWord(HashWord::ItIz) => p_vassign(t, i),
        TokenKindView::HashWord(HashWord::LemmeSee) => p_vref(t, i),
        TokenKindView::HashWord(HashWord::Gimmeh) => p_styled(t, i),
        TokenKindView::HashWord(HashWord::Maek) => p_section(t, i),
        TokenKindView::HashWord(_) => Err(
            err_at(t, i, ParseErrorKind::UnexpectedHashWordInParagraf),
        ),
        TokenKindView::Text(x) => Ok((AstView::Text { content: x }, i + 1)),
        TokenKindView::VarDef(x) => Ok((AstView::Text { content: x }, i + 1)),
        TokenKindView::Newline => Ok((AstView::Newline, i + 1)),
        _ => Err(err_at(t, i, ParseErrorKind::UnexpectedTokenInParagraf)),
    }
}

/// The contents of a paragraph up to `#OIC`, newlines skipped after each
/// piece.
pub open spec fn p_paragraf_items(t: Seq<TokenView>, i: int, acc: Seq<AstView>) -> Result<
    (AstView, int),
    ParseErrorView,
>
    decreases t.len() - i, 2int,
    when 0 <= i < t.len() && toks_wf(t)
{
    match t[i].kind {
        TokenKindView::HashWord(HashWord::Oic) => Ok(
            (AstView::ParagrafSection { children: acc }, i + 1),
        ),
        _ => match p_paragraf_content(t, i) {
            Err(e) => Err(e),
            Ok((n, j)) => {
                if i < j < t.len() {
                    proof {
                        lemma_skip_nl_bounds(t, j);
                    }
                    p_paragraf_items(t, skip_nl(t, j), acc.push(n))
                } else {
                    Err(err_at(t, i, ParseErrorKind::Stalled))
                }
            },
        },
    }
}

/// `<paragraf_section> ::= PARAGRAF <paragraf items> #OIC`.
pub open spec fn p_paragraf_section(t: Seq<TokenView>, i: int) -> Result<
    (AstView, int),
    ParseErrorView,
>
    decreases t.len() - i, 3int,
    when 0 <= i < t.len() && toks_wf(t)
{
    if t[i].kind != TokenKindView::Keyword(Keyword::Paragraf) {
        Err(err_at(t, i, ParseErrorKind::ExpectedKeyword { expected: Keyword::Paragraf }))
    } else {
        proof {
            lemma_skip_nl_bounds(t, i + 1);
        }
        p_paragraf_items(t, skip_nl(t, i + 1), Seq::empty())
    }
}

/// `<section> ::= #MAEK (HEAD ... | PARAGRAF ... | LIST ...) #OIC`.
pub open spec fn p_section(t: Seq<TokenView>, i: int) -> Result<(AstView, int), ParseErrorView>
    decreases t.len() - i, 0int,
    when 0 <= i < t.len() && toks_wf(t)
{
    if t[i].kind != TokenKindView::HashWord(HashWord::Maek) {
        Err(err_at(t, i, ParseErrorKind::ExpectedSectionStart))
    } else {
        let j = skip_nl(t, i + 1);
        proof {
            lemma_skip_nl_bounds(t, i + 1);
        }
        match t[j].kind {
            TokenKindView::Keyword(Keyword::Head) => p_head_section(t, j),
            TokenKindView::Keyword(Keyword::Paragraf) => p_paragraf_section(t, j),
            TokenKindView::Keyword(Keyword::List) => p_list_section(t, j),
            TokenKindView::Keyword(_) => Err(err_at(t, j, ParseErrorKind::UnknownSectionType)),
            _ => Err(err_at(t, j, ParseErrorKind::ExpectedSectionKeyword)),
        }
    }
}

/// The top-level body: sections, declarations with optional assignments,
/// references and styled text; plain text and identifiers are absorbed as
/// text; any other token is skipped silently. Ends at `#KTHXBYE` or end of
/// input, leaving that token for the caller.
pub open spec fn p_body(t: Seq<TokenView>, i: int, acc: Seq<AstView>) -> Result<
    (Seq<AstView>, int),
    ParseErrorView,
>
    decreases t.len() - i,
    when 0 <= i < t.len() && toks_wf(t)
{
    let j = skip_nl(t, i);
    proof {
        lemma_skip_nl_bounds(t, i);
    }
    match t[j].kind {
        TokenKindView::HashWord(HashWord::Kthxbye) => Ok((acc, j)),
        TokenKindView::HashWord(HashWord::Maek) => match p_section(t, j) {
            Err(e) => Err(e),
            Ok((n, j2)) => {
                if j < j2 < t.len() {
                    p_body(t, j2, acc.push(n))
                } else {
                    Err(err_at(t, j, ParseErrorKind::Stalled))
                }
            },
        },
        TokenKindView::HashWord(HashWord::IHaz) => match p_vdecl(t, j) {
            Err(e) => Err(e),
            Ok((n, j2)) => {
                if j < j2 < t.len() {
                    let j3 = skip_nl(t, j2);
                    proof {
                        lemma_skip_nl_bounds(t, j2);
                    }
                    if t[j3].kind == TokenKindView::HashWord(HashWord::ItIz) {
                        match p_vassign(t, j3) {
                            Err(e) => Err(e),
                            Ok((n2, j4)) => {
                                if j3 < j4 < t.len() {
                                    p_body(t, j4, acc.push(n).push(n2))
                                } else {
                                    Err(err_at(t, j, ParseErrorKind::Stalled))
                                }
                            },
                        }
                    } else {
                        p_body(t, j3, acc.push(n))
                    }
                } else {
                    Err(err_at(t, j, ParseErrorKind::Stalled))
                }
            },
        },
        TokenKindView::HashWord(HashWord::LemmeSee) => match p_vref(t, j) {
            Err(e) => Err(e),
            Ok((n, j2)) => {
                if j < j2 < t.len() {
                    p_body(t, j2, acc.push(n))
                } else {
                    Err(err_at(t, j, ParseErrorKind::Stalled))
                }
            },
        },
        TokenKindView::HashWord(HashWord::Gimmeh) => match p_styled(t, j) {
            Err(e) => Err(e),
            Ok((n, j2)) => {
                if j < j2 < t.len() {
                    p_body(t, j2, acc.push(n))
                } else {
                    Err(err_at(t, j, ParseErrorKind::Stalled))
                }
            },
        },
        TokenKindView::Eof => Ok((acc, j)),
        TokenKindView::Text(x) => p_body(t, j + 1, acc.push(AstView::Text { content: x })),
        TokenKindView::VarDef(x) => p_body(t, j + 1, acc.push(AstView::Text { content: x })),
        _ => p_body(t, j + 1, acc),
    }
}

/// `<program> ::= #HAI <body> #KTHXBYE`, with nothing but newlines allowed
/// after the closing word.
pub open spec fn p_program(t: Seq<TokenView>, i: int) -> Result<(AstView, int), ParseErrorView> {
    if t[i].kind != TokenKindView::HashWord(HashWord::Hai) {
        Err(err_at(t, i, ParseErrorKind::ExpectedHashWord { expected: HashWord::Hai }))
    } else {
        match p_body(t, skip_nl(t, i + 1), Seq::empty()) {
            Err(e) => Err(e),
            Ok((children, j)) => {
                let j2 = skip_nl(t, j);
                if t[j2].kind != TokenKindView::HashWord(HashWord::Kthxbye) {
                    Err(
                        err_at(
                            t,
                            j2,
                            ParseErrorKind::ExpectedHashWord { expected: HashWord::Kthxbye },
                        ),
                    )
                } else {
                    let j3 = skip_nl(t, j2 + 1);
                    if t[j3].kind is Eof {
                        Ok((AstView::Program { children }, j3))
                    } else {
                        Err(err_at(t, j3, ParseErrorKind::TrailingTokens))
                    }
                }
            },
        }
    }
}


/// The recursive-descent parser: the token sequence of one source text and
/// a cursor with one token of lookahead.
pub struct LolcodeParser {
    tokens: Vec<Token>,
    pos: usize,
}

impl LolcodeParser {
    /// The parsed token sequence.
    pub closed spec fn toks(&self) -> Seq<TokenView> {
        tokens_view(self.tokens@)
    }

    /// The cursor: how many tokens have been consumed.
    pub closed spec fn at(&self) -> int {
        self.pos as int
    }

    /// The parser's invariant: a well-formed token sequence and a cursor
    /// inside it.
    pub closed spec fn wf(&self) -> bool {
        &&& toks_wf(self.toks())
        &&& 0 <= self.pos < self.tokens@.len()
    }

    /// Lexes `source` in full and places the cursor on its first token;
    /// fails exactly when lexing fails.
    pub fn new(source: &str) -> (r: Result<Self, LexError>)
        requires
            source@.len() < usize::MAX,
        ensures
            (match r {
                Ok(p) => {
                    &&& p.wf()
                    &&& p.at() == 0
                    &&& lex_all(source@, 0) == Ok::<Seq<TokenView>, crate::lexer::LexErrorView>(
                        p.toks(),
                    )
                },
                Err(e) => lex_all(source@, 0) == Err::<Seq<TokenView>, crate::lexer::LexErrorView>(
                    e@,
                ),
            }),
    {
        match tokenize(source) {
            Err(e) => Err(e),
            Ok(tokens) => {
                let p = LolcodeParser { tokens, pos: 0 };
                proof {
                    assert forall|j: int| 0 <= j < p.toks().len() - 1 implies !(
                    #[trigger] p.toks()[j].kind is Eof) by {
                        assert(p.toks()[j].kind == p.tokens@[j].kind@);
                    }
                    assert(p.toks().last().kind == p.tokens@[p.tokens@.len() - 1].kind@);
                }
                Ok(p)
            },
        }
    }

    /// The token under the cursor.
    pub fn current_token(&self) -> (r: &Token)
        requires
            self.wf(),
        ensures
            r@ == self.toks()[self.at()],
    {
        &self.tokens[self.pos]
    }

    /// Moves past the current token unless it is `Eof`, and returns the new
    /// current token.
    pub fn next_token(&mut self) -> (r: &Token)
        requires
            old(self).wf(),
        ensures
            final(self).wf(),
            final(self).toks() == old(self).toks(),
            final(self).at() == (if old(self).toks()[old(self).at()].kind is Eof {
                old(self).at()
            } else {
                old(self).at() + 1
            }),
            r@ == final(self).toks()[final(self).at()],
    {
        let is_eof = matches!(self.tokens[self.pos].kind, TokenKind::Eof);
        proof {
            assert(self.toks()[self.at()] == self.tokens@[self.pos as int]@);
        }
        if !is_eof {
            let n = self.tokens.len();
            proof {
                assert(self.toks().last().kind is Eof);
                assert(self.pos < n - 1);
            }
            self.pos = self.pos + 1;
            proof {
                assert(self.toks()[self.at()] == self.tokens@[self.pos as int]@);
            }
        }
        &self.tokens[self.pos]
    }

    /// Moves past the current token, which must not be `Eof`.
    fn advance(&mut self)
        requires
            old(self).wf(),
            !(old(self).toks()[old(self).at()].kind is Eof),
        ensures
            final(self).wf(),
            final(self).toks() == old(self).toks(),
            final(self).at() == old(self).at() + 1,
    {
        proof {
            assert(self.toks()[self.at()] == self.tokens@[self.pos as int]@);
            assert(self.toks().last().kind is Eof);
        }
        let n = self.tokens.len();
        proof {
            assert(self.pos < n - 1);
        }
        self.pos = self.pos + 1;
    }

    /// Consumes the expected hashtag word or reports it missing.
    pub fn match_hashword(&mut self, expected: HashWord) -> (r: Result<(), ParseError>)
        requires
            old(self).wf(),
        ensures
            final(self).wf(),
            final(self).toks() == old(self).toks(),
            (match r {
                Ok(_) => {
                    &&& old(self).toks()[old(self).at()].kind == TokenKindView::HashWord(expected)
                    &&& final(self).at() == old(self).at() + 1
                },
                Err(e) => {
                    &&& old(self).toks()[old(self).at()].kind != TokenKindView::HashWord(expected)
                    &&& final(self).at() == old(self).at()
                    &&& e@ == err_at(
                        old(self).toks(),
                        old(self).at(),
                        ParseErrorKind::ExpectedHashWord { expected },
                    )
                },
            }),
    {
        proof {
            assert(self.toks()[self.at()] == self.tokens@[self.pos as int]@);
        }
        let matched = match &self.tokens[self.pos].kind {
            TokenKind::HashWord(h) => *h == expected,
            _ => false,
        };
        if matched {
            self.advance();
            Ok(())
        } else {
            Err(ParseError {
                kind: ParseErrorKind::ExpectedHashWord { expected },
                line: self.tokens[self.pos].line,
                col: self.tokens[self.pos].col,
            })
        }
    }

    /// Consumes the expected keyword or reports it missing.
    pub fn match_keyword(&mut self, expected: Keyword) -> (r: Result<(), ParseError>)
        requires
            old(self).wf(),
        ensures
            final(self).wf(),
            final(self).toks() == old(self).toks(),
            (match r {
                Ok(_) => {
                    &&& old(self).toks()[old(self).at()].kind == TokenKindView::Keyword(expected)
                    &&& final(self).at() == old(self).at() + 1
                },
                Err(e) => {
                    &&& old(self).toks()[old(self).at()].kind != TokenKindView::Keyword(expected)
                    &&& final(self).at() == old(self).at()
                    &&& e@ == err_at(
                        old(self).toks(),
                        old(self).at(),
                        ParseErrorKind::ExpectedKeyword { expected },
                    )
                },
            }),
    {
        proof {
            assert(self.toks()[self.at()] == self.tokens@[self.pos as int]@);
        }
        let matched = match &self.tokens[self.pos].kind {
            TokenKind::Keyword(k) => *k == expected,
            _ => false,
        };
        if matched {
            self.advance();
            Ok(())
        } else {
            Err(ParseError {
                kind: ParseErrorKind::ExpectedKeyword { expected },
                line: self.tokens[self.pos].line,
                col: self.tokens[self.pos].col,
            })
        }
    }

    /// Consumes a run of newline tokens.
    #[verifier::loop_isolation(false)]
    pub fn skip_newlines(&mut self)
        requires
            old(self).wf(),
        ensures
            final(self).wf(),
            final(self).toks() == old(self).toks(),
            final(self).at() == skip_nl(old(self).toks(), old(self).at()),
            old(self).at() <= final(self).at(),
            !(final(self).toks()[final(self).at()].kind is Newline),
    {
        let ghost t = self.toks();
        let ghost i0 = self.at();
        proof {
            lemma_skip_nl_bounds(t, i0);
        }
        loop
            invariant
                self.wf(),
                self.toks() == t,
                i0 <= self.at() < t.len(),
                skip_nl(t, i0) == skip_nl(t, self.at()),
            decreases t.len() - self.at(),
        {
            proof {
                assert(self.toks()[self.at()] == self.tokens@[self.pos as int]@);
            }
            let is_nl = matches!(self.tokens[self.pos].kind, TokenKind::Newline);
            if !is_nl {
                proof {
                    assert(skip_nl(t, self.at()) == self.at());
                }
                return ;
            }
            self.advance();
        }
    }

    /// Consumes one newline token or reports it missing.
    pub fn match_newline(&mut self) -> (r: Result<(), ParseError>)
        requires
            old(self).wf(),
        ensures
            final(self).wf(),
            final(self).toks() == old(self).toks(),
            (match r {
                Ok(_) => {
                    &&& old(self).toks()[old(self).at()].kind is Newline
                    &&& final(self).at() == old(self).at() + 1
                },
                Err(e) => {
                    &&& !(old(self).toks()[old(self).at()].kind is Newline)
                    &&& final(self).at() == old(self).at()
                    &&& e@ == err_at(old(self).toks(), old(self).at(), ParseErrorKind::ExpectedNewline)
                },
            }),
    {
        proof {
            assert(self.toks()[self.at()] == self.tokens@[self.pos as int]@);
        }
        let is_nl = matches!(self.tokens[self.pos].kind, TokenKind::Newline);
        if is_nl {
            self.advance();
            Ok(())
        } else {
            Err(ParseError {
                kind: ParseErrorKind::ExpectedNewline,
                line: self.tokens[self.pos].line,
                col: self.tokens[self.pos].col,
            })
        }
    }

    /// `<variable_decl> ::= #I HAZ <identifier>`, exactly `p_vdecl`.
    fn variable_declaration(&mut self) -> (r: Result<ASTNode, ParseError>)
        requires
            old(self).wf(),
        ensures
            final(self).wf(),
            final(self).toks() == old(self).toks(),
            (match r {
                Ok(n) => p_vdecl(old(self).toks(), old(self).at()) == Ok::<
                    (AstView, int),
                    ParseErrorView,
                >((n@, final(self).at())) && old(self).at() < final(self).at(),
                Err(e) => p_vdecl(old(self).toks(), old(self).at()) == Err::<
                    (AstView, int),
                    ParseErrorView,
                >(e@),
            }),
    {
        let ghost t = self.toks();
        let ghost i = self.at();
        match self.match_hashword(HashWord::IHaz) {
            Err(e) => {
                return Err(e);
            },
            Ok(_) => {},
        }
        proof {
            assert(self.toks()[self.at()] == self.tokens@[self.pos as int]@);
        }
        let name_opt: Option<String> = match &self.tokens[self.pos].kind {
            TokenKind::VarDef(v) => Some(v.clone()),
            _ => None,
        };
        match name_opt {
            Some(name) => {
                let ghost namev = name@;
                self.advance();
                let node = ASTNode::VariableDeclaration { name };
                proof {
                    assert(node@ == AstView::VariableDeclaration { name: namev });
                }
                Ok(node)
            },
            None => Err(ParseError {
                kind: ParseErrorKind::ExpectedVariableName,
                line: self.tokens[self.pos].line,
                col: self.tokens[self.pos].col,
            }),
        }
    }

    /// `<variable_reference> ::= #LEMME SEE <identifier> #MKAY`, exactly
    /// `p_vref`.
    fn variable_reference(&mut self) -> (r: Result<ASTNode, ParseError>)
        requires
            old(self).wf(),
        ensures
            final(self).wf(),
            final(self).toks() == old(self).toks(),
            (match r {
                Ok(n) => p_vref(old(self).toks(), old(self).at()) == Ok::<
                    (AstView, int),
                    ParseErrorView,
                >((n@, final(self).at())) && old(self).at() < final(self).at(),
                Err(e) => p_vref(old(self).toks(), old(self).at()) == Err::<
                    (AstView, int),
                    ParseErrorView,
                >(e@),
            }),
    {
        let ghost t = self.toks();
        let ghost i = self.at();
        match self.match_hashword(HashWord::LemmeSee) {
            Err(e) => {
                return Err(e);
            },
            Ok(_) => {},
        }
        proof {
            assert(self.toks()[self.at()] == self.tokens@[self.pos as int]@);
        }
        let name_opt: Option<String> = match &self.tokens[self.pos].kind {
            TokenKind::VarDef(v) => Some(v.clone()),
            _ => None,
        };
        match name_opt {
            Some(name) => {
                self.advance();
                let ghost namev = name@;
                match self.match_hashword(HashWord::Mkay) {
                    Err(e) => Err(e),
                    Ok(_) => {
                        let node = ASTNode::VariableReference { name };
                        proof {
                            assert(node@ == AstView::VariableReference { name: namev });
                        }
                        Ok(node)
                    },
                }
            },
            None => Err(ParseError {
                kind: ParseErrorKind::ExpectedVariableName,
                line: self.tokens[self.pos].line,
                col: self.tokens[self.pos].col,
            }),
        }
    }

    /// `<variable_assign> ::= #IT IZ <value run> #MKAY`, exactly `p_vassign`.
    #[verifier::loop_isolation(false)]
    fn variable_assignment(&mut self) -> (r: Result<ASTNode, ParseError>)
        requires
            old(self).wf(),
        ensures
            final(self).wf(),
            final(self).toks() == old(self).toks(),
            (match r {
                Ok(n) => p_vassign(old(self).toks(), old(self).at()) == Ok::<
                    (AstView, int),
                    ParseErrorView,
                >((n@, final(self).at())) && old(self).at() < final(self).at(),
                Err(e) => p_vassign(old(self).toks(), old(self).at()) == Err::<
                    (AstView, int),
                    ParseErrorView,
                >(e@),
            }),
    {
        let ghost t = self.toks();
        let ghost i = self.at();
        match self.match_hashword(HashWord::ItIz) {
            Err(e) => {
                return Err(e);
            },
            Ok(_) => {},
        }
        let mut value = String::new();
        loop
            invariant
                self.wf(),
                self.toks() == t,
                i < self.at() < t.len(),
                p_value_run(t, i + 1, Seq::empty()) == p_value_run(t, self.at(), value@),
            decreases t.len() - self.at(),
        {
            proof {
                assert(self.toks()[self.at()] == self.tokens@[self.pos as int]@);
            }
            let piece: Option<String> = match &self.tokens[self.pos].kind {
                TokenKind::Text(x) => Some(x.clone()),
                TokenKind::VarDef(x) => Some(x.clone()),
                _ => None,
            };
            match piece {
                Some(x) => {
                    value.append(x.as_str());
                    self.advance();
                },
                None => {
                    // the run stops here; only a closing #MKAY is accepted
                    match self.match_hashword(HashWord::Mkay) {
                        Err(e) => {
                            return Err(e);
                        },
                        Ok(_) => {
                            let ghost valv = trimmed(value@);
                            let trimmed_value = crate::text::trim_str(value.as_str());
                            let node = ASTNode::VariableAssignment {
                                name: String::new(),
                                value: trimmed_value,
                            };
                            proof {
                                assert(node@ == AstView::VariableAssignment {
                                    name: Seq::empty(),
                                    value: valv,
                                });
                            }
                            return Ok(node);
                        },
                    }
                },
            }
        }
    }
    /// Whether the current token is the given hashtag word.
    fn cur_is_hash(&self, hw: HashWord) -> (r: bool)
        requires
            self.wf(),
        ensures
            r == (self.toks()[self.at()].kind == TokenKindView::HashWord(hw)),
    {
        proof {
            assert(self.toks()[self.at()] == self.tokens@[self.pos as int]@);
        }
        match &self.tokens[self.pos].kind {
            TokenKind::HashWord(h) => *h == hw,
            _ => false,
        }
    }

    /// The current token's keyword, if it is one.
    fn cur_keyword(&self) -> (r: Option<Keyword>)
        requires
            self.wf(),
        ensures
            (match self.toks()[self.at()].kind {
                TokenKindView::Keyword(k) => r == Some(k),
                _ => r is None,
            }),
    {
        proof {
            assert(self.toks()[self.at()] == self.tokens@[self.pos as int]@);
        }
        match &self.tokens[self.pos].kind {
            TokenKind::Keyword(k) => Some(*k),
            _ => None,
        }
    }

    /// The current token's free text, whether plain text or an identifier.
    fn cur_text_or_vardef(&self) -> (r: Option<String>)
        requires
            self.wf(),
        ensures
            (match self.toks()[self.at()].kind {
                TokenKindView::Text(x) => r matches Some(s) && s@ == x,
                TokenKindView::VarDef(x) => r matches Some(s) && s@ == x,
                _ => r is None,
            }),
    {
        proof {
            assert(self.toks()[self.at()] == self.tokens@[self.pos as int]@);
        }
        match &self.tokens[self.pos].kind {
            TokenKind::Text(x) => Some(x.clone()),
            TokenKind::VarDef(x) => Some(x.clone()),
            _ => None,
        }
    }

    /// Whether the current token is a newline.
    fn cur_is_newline(&self) -> (r: bool)
        requires
            self.wf(),
        ensures
            r == (self.toks()[self.at()].kind is Newline),
    {
        proof {
            assert(self.toks()[self.at()] == self.tokens@[self.pos as int]@);
        }
        matches!(self.tokens[self.pos].kind, TokenKind::Newline)
    }

    /// Whether the current token is the end of input.
    fn cur_is_eof(&self) -> (r: bool)
        requires
            self.wf(),
        ensures
            r == (self.toks()[self.at()].kind is Eof),
    {
        proof {
            assert(self.toks()[self.at()] == self.tokens@[self.pos as int]@);
        }
        matches!(self.tokens[self.pos].kind, TokenKind::Eof)
    }

    /// The current token's position, for error reports.
    fn cur_err(&self, kind: ParseErrorKind) -> (r: ParseError)
        requires
            self.wf(),
        ensures
            r@ == err_at(self.toks(), self.at(), kind),
    {
        proof {
            assert(self.toks()[self.at()] == self.tokens@[self.pos as int]@);
        }
        ParseError { kind, line: self.tokens[self.pos].line, col: self.tokens[self.pos].col }
    }

    /// `<head_content> ::= #GIMMEH TITLE <title run> #MKAY`, exactly
    /// `p_head_content`.
    #[verifier::loop_isolation(false)]
    fn head_content(&mut self) -> (r: Result<ASTNode, ParseError>)
        requires
            old(self).wf(),
        ensures
            final(self).wf(),
            final(self).toks() == old(self).toks(),
            (match r {
                Ok(n) => p_head_content(old(self).toks(), old(self).at()) == Ok::<
                    (AstView, int),
                    ParseErrorView,
                >((n@, final(self).at())) && old(self).at() < final(self).at(),
                Err(e) => p_head_content(old(self).toks(), old(self).at()) == Err::<
                    (AstView, int),
                    ParseErrorView,
                >(e@),
            }),
    {
        let ghost t = self.toks();
        let ghost i = self.at();
        match self.match_hashword(HashWord::Gimmeh) {
            Err(e) => {
                return Err(e);
            },
            Ok(_) => {},
        }
        match self.match_keyword(Keyword::Title) {
            Err(e) => {
                return Err(e);
            },
            Ok(_) => {},
        }
        let mut title = String::new();
        loop
            invariant
                self.wf(),
                self.toks() == t,
                i + 2 <= self.at() < t.len(),
                p_title_run(t, i + 2, Seq::empty()) == p_title_run(t, self.at(), title@),
            decreases t.len() - self.at(),
        {
            if self.cur_is_hash(HashWord::Mkay) {
                self.advance();
                let ghost cv = trimmed(title@);
                let content = crate::text::trim_str(title.as_str());
                let node = ASTNode::Title { content };
                proof {
                    assert(node@ == AstView::Title { content: cv });
                }
                return Ok(node);
            }
            let piece = self.cur_text_or_vardef();
            match piece {
                Some(x) => {
                    if !title.as_str().is_empty() {
                        title.append(" ");
                    }
                    title.append(x.as_str());
                    self.advance();
                },
                None => {
                    if self.cur_is_newline() {
                        self.advance();
                    } else {
                        return Err(self.cur_err(ParseErrorKind::UnexpectedTokenInTitle));
                    }
                },
            }
        }
    }

    /// `<head_section> ::= HEAD { <head_content> } #OIC`, exactly
    /// `p_head_section`.
    #[verifier::loop_isolation(false)]
    fn head_section(&mut self) -> (r: Result<ASTNode, ParseError>)
        requires
            old(self).wf(),
        ensures
            final(self).wf(),
            final(self).toks() == old(self).toks(),
            (match r {
                Ok(n) => p_head_section(old(self).toks(), old(self).at()) == Ok::<
                    (AstView, int),
                    ParseErrorView,
                >((n@, final(self).at())) && old(self).at() < final(self).at(),
                Err(e) => p_head_section(old(self).toks(), old(self).at()) == Err::<
                    (AstView, int),
                    ParseErrorView,
                >(e@),
            }),
    {
        let ghost t = self.toks();
        let ghost i = self.at();
        match self.match_keyword(Keyword::Head) {
            Err(e) => {
                return Err(e);
            },
            Ok(_) => {},
        }
        self.skip_newlines();
        let ghost j0 = self.at();
        let mut children: Vec<ASTNode> = Vec::new();
        proof {
            assert(asts_view(children@) =~= Seq::<AstView>::empty());
        }
        loop
            invariant
                self.wf(),
                self.toks() == t,
                i < self.at() < t.len(),
                p_head_items(t, j0, Seq::empty()) == p_head_items(
                    t,
                    self.at(),
                    asts_view(children@),
                ),
            decreases t.len() - self.at(),
        {
            let ghost pre = self.at();
            self.skip_newlines();
            proof {
                lemma_skip_nl_bounds(t, self.at());
                assert(p_head_items(t, pre, asts_view(children@)) == p_head_items(
                    t,
                    self.at(),
                    asts_view(children@),
                ));
            }
            if self.cur_is_hash(HashWord::Oic) {
                self.advance();
                let ghost cs = asts_view(children@);
                let node = ASTNode::HeadSection { children };
                proof {
                    assert(node@ == AstView::HeadSection { children: cs });
                }
                return Ok(node);
            }
            if self.cur_is_hash(HashWord::Gimmeh) {
                match self.head_content() {
                    Err(e) => {
                        return Err(e);
                    },
                    Ok(n) => {
                        proof {
                            lemma_asts_view_push(children@, n);
                        }
                        children.push(n);
                    },
                }
            } else {
                return Err(self.cur_err(ParseErrorKind::ExpectedHashWord {
                    expected: HashWord::Oic,
                }));
            }
        }
    }

    /// `<list_item> ::= #GIMMEH ITEM <inline run> #MKAY`, exactly `p_item`.
    #[verifier::loop_isolation(false)]
    fn list_item(&mut self) -> (r: Result<ASTNode, ParseError>)
        requires
            old(self).wf(),
        ensures
            final(self).wf(),
            final(self).toks() == old(self).toks(),
            (match r {
                Ok(n) => p_item(old(self).toks(), old(self).at()) == Ok::<
                    (AstView, int),
                    ParseErrorView,
                >((n@, final(self).at())) && old(self).at() < final(self).at(),
                Err(e) => p_item(old(self).toks(), old(self).at()) == Err::<
                    (AstView, int),
                    ParseErrorView,
                >(e@),
            }),
    {
        let ghost t = self.toks();
        let ghost i = self.at();
        match self.match_hashword(HashWord::Gimmeh) {
            Err(e) => {
                return Err(e);
            },
            Ok(_) => {},
        }
        match self.match_keyword(Keyword::Item) {
            Err(e) => {
                return Err(e);
            },
            Ok(_) => {},
        }
        let mut content: Vec<ASTNode> = Vec::new();
        proof {
            assert(asts_view(content@) =~= Seq::<AstView>::empty());
        }
        loop
            invariant
                self.wf(),
                self.toks() == t,
                i + 2 <= self.at() < t.len(),
                p_inline_run(t, i + 2, Seq::empty()) == p_inline_run(
                    t,
                    self.at(),
                    asts_view(content@),
                ),
            decreases t.len() - self.at(),
        {
            if self.cur_is_hash(HashWord::Mkay) {
                self.advance();
                let ghost cs = asts_view(content@);
                let node = ASTNode::Item { content };
                proof {
                    assert(node@ == AstView::Item { content: cs });
                }
                return Ok(node);
            }
            if self.cur_is_hash(HashWord::LemmeSee) {
                match self.variable_reference() {
                    Err(e) => {
                        return Err(e);
                    },
                    Ok(n) => {
                        proof {
                            lemma_asts_view_push(content@, n);
                        }
                        content.push(n);
                    },
                }
            } else {
                let piece = self.cur_text_or_vardef();
                match piece {
                    Some(x) => {
                        let node = ASTNode::Text { content: x };
                        proof {
                            lemma_asts_view_push(content@, node);
                        }
                        content.push(node);
                        self.advance();
                    },
                    None => {
                        return Err(self.cur_err(ParseErrorKind::ExpectedHashWord {
                            expected: HashWord::Mkay,
                        }));
                    },
                }
            }
        }
    }

    /// `<styled_text> ::= #GIMMEH <style> ...`, exactly `p_styled`, with the
    /// grammar's asymmetries: `NEWLINE` ends at once, `SOUNDZ`/`VIDZ` gather
    /// a URL, everything else gathers inline content.
    #[verifier::loop_isolation(false)]
    fn styled_text(&mut self) -> (r: Result<ASTNode, ParseError>)
        requires
            old(self).wf(),
        ensures
            final(self).wf(),
            final(self).toks() == old(self).toks(),
            (match r {
                Ok(n) => p_styled(old(self).toks(), old(self).at()) == Ok::<
                    (AstView, int),
                    ParseErrorView,
                >((n@, final(self).at())) && old(self).at() < final(self).at(),
                Err(e) => p_styled(old(self).toks(), old(self).at()) == Err::<
                    (AstView, int),
                    ParseErrorView,
                >(e@),
            }),
    {
        let ghost t = self.toks();
        let ghost i = self.at();
        match self.match_hashword(HashWord::Gimmeh) {
            Err(e) => {
                return Err(e);
            },
            Ok(_) => {},
        }
        let style = match self.cur_keyword() {
            Some(k) => k,
            None => {
                return Err(self.cur_err(ParseErrorKind::ExpectedStyleKeyword));
            },
        };
        self.advance();
        if matches!(style, Keyword::Newline) {
            return Ok(ASTNode::Newline);
        }
        if matches!(style, Keyword::Soundz) || matches!(style, Keyword::Vidz) {
            let mut url = String::new();
            loop
                invariant
                    self.wf(),
                    self.toks() == t,
                    i + 2 <= self.at() < t.len(),
                    p_url_run(t, i + 2, Seq::empty()) == p_url_run(t, self.at(), url@),
                decreases t.len() - self.at(),
            {
                if self.cur_is_hash(HashWord::Mkay) {
                    self.advance();
                    let ghost uv = trimmed(url@);
                    let link = crate::text::trim_str(url.as_str());
                    let node = if matches!(style, Keyword::Soundz) {
                        ASTNode::Sound { url: link }
                    } else {
                        ASTNode::Video { url: link }
                    };
                    proof {
                        if style == Keyword::Soundz {
                            assert(node@ == AstView::Sound { url: uv });
                        } else {
                            assert(node@ == AstView::Video { url: uv });
                        }
                    }
                    return Ok(node);
                }
                let piece = self.cur_text_or_vardef();
                match piece {
                    Some(x) => {
                        url.append(x.as_str());
                        self.advance();
                    },
                    None => {
                        if self.cur_is_newline() {
                            self.advance();
                        } else {
                            return Err(self.cur_err(ParseErrorKind::ExpectedHashWord {
                                expected: HashWord::Mkay,
                            }));
                        }
                    },
                }
            }
        }
        let mut content: Vec<ASTNode> = Vec::new();
        proof {
            assert(asts_view(content@) =~= Seq::<AstView>::empty());
        }
        loop
            invariant
                self.wf(),
                self.toks() == t,
                i + 2 <= self.at() < t.len(),
                p_inline_run(t, i + 2, Seq::empty()) == p_inline_run(
                    t,
                    self.at(),
                    asts_view(content@),
                ),
            decreases t.len() - self.at(),
        {
            if self.cur_is_hash(HashWord::Mkay) {
                self.advance();
                let ghost cs = asts_view(content@);
                if matches!(style, Keyword::Bold) {
                    let node = ASTNode::Bold { content };
                    proof {
                        assert(node@ == AstView::Bold { content: cs });
                    }
                    return Ok(node);
                }
                if matches!(style, Keyword::Italics) {
                    let node = ASTNode::Italics { content };
                    proof {
                        assert(node@ == AstView::Italics { content: cs });
                    }
                    return Ok(node);
                }
                let mut text = keyword_name(style).to_owned();
                text.append(" text");
                let node = ASTNode::Text { content: text };
                proof {
                    assert(node@ == AstView::Text { content: keyword_text(style) + " text"@ });
                }
                return Ok(node);
            }
            if self.cur_is_hash(HashWord::LemmeSee) {
                match self.variable_reference() {
                    Err(e) => {
                        return Err(e);
                    },
                    Ok(n) => {
                        proof {
                            lemma_asts_view_push(content@, n);
                        }
                        content.push(n);
                    },
                }
            } else {
                let piece = self.cur_text_or_vardef();
                match piece {
                    Some(x) => {
                        let node = ASTNode::Text { content: x };
                        proof {
                            lemma_asts_view_push(content@, node);
                        }
                        content.push(node);
                        self.advance();
                    },
                    None => {
                        return Err(self.cur_err(ParseErrorKind::ExpectedHashWord {
                            expected: HashWord::Mkay,
                        }));
                    },
                }
            }
        }
    }

    /// `<section> ::= #MAEK (HEAD | PARAGRAF | LIST) ... #OIC`, exactly
    /// `p_section`.
    fn section(&mut self) -> (r: Result<ASTNode, ParseError>)
        requires
            old(self).wf(),
        ensures
            final(self).wf(),
            final(self).toks() == old(self).toks(),
            (match r {
                Ok(n) => p_section(old(self).toks(), old(self).at()) == Ok::<
                    (AstView, int),
                    ParseErrorView,
                >((n@, final(self).at())) && old(self).at() < final(self).at(),
                Err(e) => p_section(old(self).toks(), old(self).at()) == Err::<
                    (AstView, int),
                    ParseErrorView,
                >(e@),
            }),
        decreases old(self).tokens@.len() - old(self).pos, 0int,
    {
        let ghost t = self.toks();
        let ghost i = self.at();
        if !self.cur_is_hash(HashWord::Maek) {
            return Err(self.cur_err(ParseErrorKind::ExpectedSectionStart));
        }
        self.advance();
        self.skip_newlines();
        match self.cur_keyword() {
            Some(Keyword::Head) => self.head_section(),
            Some(Keyword::Paragraf) => self.paragraf_section(),
            Some(Keyword::List) => self.list_section(),
            Some(_) => Err(self.cur_err(ParseErrorKind::UnknownSectionType)),
            None => Err(self.cur_err(ParseErrorKind::ExpectedSectionKeyword)),
        }
    }

    /// One piece of paragraph content, exactly `p_paragraf_content`.
    fn paragraf_content(&mut self) -> (r: Result<ASTNode, ParseError>)
        requires
            old(self).wf(),
        ensures
            final(self).wf(),
            final(self).toks() == old(self).toks(),
            (match r {
                Ok(n) => p_paragraf_content(old(self).toks(), old(self).at()) == Ok::<
                    (AstView, int),
                    ParseErrorView,
                >((n@, final(self).at())) && old(self).at() < final(self).at(),
                Err(e) => p_paragraf_content(old(self).toks(), old(self).at()) == Err::<
                    (AstView, int),
                    ParseErrorView,
                >(e@),
            }),
        decreases old(self).tokens@.len() - old(self).pos, 1int,
    {
        let ghost t = self.toks();
        let ghost i = self.at();
        if self.cur_is_hash(HashWord::IHaz) {
            return self.variable_declaration();
        }
        if self.cur_is_hash(HashWord::ItIz) {
            return self.variable_assignment();
        }
        if self.cur_is_hash(HashWord::LemmeSee) {
            return self.variable_reference();
        }
        if self.cur_is_hash(HashWord::Gimmeh) {
            return self.styled_text();
        }
        if self.cur_is_hash(HashWord::Maek) {
            return self.section();
        }
        let piece = self.cur_text_or_vardef();
        match piece {
            Some(x) => {
                let node = ASTNode::Text { content: x };
                self.advance();
                return Ok(node);
            },
            None => {},
        }
        if self.cur_is_newline() {
            self.advance();
            return Ok(ASTNode::Newline);
        }
        proof {
            assert(self.toks()[self.at()] == self.tokens@[self.pos as int]@);
        }
        let is_hash = matches!(self.tokens[self.pos].kind, TokenKind::HashWord(_));
        if is_hash {
            Err(self.cur_err(ParseErrorKind::UnexpectedHashWordInParagraf))
        } else {
            Err(self.cur_err(ParseErrorKind::UnexpectedTokenInParagraf))
        }
    }

    /// `<paragraf_section> ::= PARAGRAF { <paragraf_content> } #OIC`,
    /// exactly `p_paragraf_section`.
    #[verifier::loop_isolation(false)]
    fn paragraf_section(&mut self) -> (r: Result<ASTNode, ParseError>)
        requires
            old(self).wf(),
        ensures
            final(self).wf(),
            final(self).toks() == old(self).toks(),
            (match r {
                Ok(n) => p_paragraf_section(old(self).toks(), old(self).at()) == Ok::<
                    (AstView, int),
                    ParseErrorView,
                >((n@, final(self).at())) && old(self).at() < final(self).at(),
                Err(e) => p_paragraf_section(old(self).toks(), old(self).at()) == Err::<
                    (AstView, int),
                    ParseErrorView,
                >(e@),
            }),
        decreases old(self).tokens@.len() - old(self).pos, 2int,
    {
        let ghost t = self.toks();
        let ghost i = self.at();
        match self.match_keyword(Keyword::Paragraf) {
            Err(e) => {
                return Err(e);
            },
            Ok(_) => {},
        }
        self.skip_newlines();
        let ghost j0 = self.at();
        let mut children: Vec<ASTNode> = Vec::new();
        proof {
            assert(asts_view(children@) =~= Seq::<AstView>::empty());
        }
        loop
            invariant
                self.wf(),
                self.toks() == t,
                i < self.at() < t.len(),
                p_paragraf_items(t, j0, Seq::empty()) == p_paragraf_items(
                    t,
                    self.at(),
                    asts_view(children@),
                ),
            decreases t.len() - self.at(),
        {
            if self.cur_is_hash(HashWord::Oic) {
                self.advance();
                let ghost cs = asts_view(children@);
                let node = ASTNode::ParagrafSection { children };
                proof {
                    assert(node@ == AstView::ParagrafSection { children: cs });
                }
                return Ok(node);
            }
            match self.paragraf_content() {
                Err(e) => {
                    return Err(e);
                },
                Ok(n) => {
                    proof {
                        lemma_asts_view_push(children@, n);
                    }
                    children.push(n);
                    let ghost mid = self.at();
                    self.skip_newlines();
                    proof {
                        lemma_skip_nl_bounds(t, mid);
                    }
                },
            }
        }
    }

    /// `<list_section> ::= LIST { <list_item> } #OIC`, exactly
    /// `p_list_section`.
    #[verifier::loop_isolation(false)]
    fn list_section(&mut self) -> (r: Result<ASTNode, ParseError>)
        requires
            old(self).wf(),
        ensures
            final(self).wf(),
            final(self).toks() == old(self).toks(),
            (match r {
                Ok(n) => p_list_section(old(self).toks(), old(self).at()) == Ok::<
                    (AstView, int),
                    ParseErrorView,
                >((n@, final(self).at())) && old(self).at() < final(self).at(),
                Err(e) => p_list_section(old(self).toks(), old(self).at()) == Err::<
                    (AstView, int),
                    ParseErrorView,
                >(e@),
            }),
    {
        let ghost t = self.toks();
        let ghost i = self.at();
        match self.match_keyword(Keyword::List) {
            Err(e) => {
                return Err(e);
            },
            Ok(_) => {},
        }
        self.skip_newlines();
        let ghost j0 = self.at();
        let mut items: Vec<ASTNode> = Vec::new();
        proof {
            assert(asts_view(items@) =~= Seq::<AstView>::empty());
        }
        loop
            invariant
                self.wf(),
                self.toks() == t,
                i < self.at() < t.len(),
                p_list_items(t, j0, Seq::empty()) == p_list_items(
                    t,
                    self.at(),
                    asts_view(items@),
                ),
            decreases t.len() - self.at(),
        {
            if self.cur_is_hash(HashWord::Oic) {
                self.advance();
                let ghost cs = asts_view(items@);
                let node = ASTNode::ListSection { children: items };
                proof {
                    assert(node@ == AstView::ListSection { children: cs });
                }
                return Ok(node);
            }
            match self.list_item() {
                Err(e) => {
                    return Err(e);
                },
                Ok(n) => {
                    proof {
                        lemma_asts_view_push(items@, n);
                    }
                    items.push(n);
                    let ghost mid = self.at();
                    self.skip_newlines();
                    proof {
                        lemma_skip_nl_bounds(t, mid);
                    }
                },
            }
        }
    }

    /// The top-level body, exactly `p_body`: sections, declarations with
    /// their optional assignments, references, styled text and plain text,
    /// ending before `#KTHXBYE` or the end of input.
    #[verifier::loop_isolation(false)]
    fn body(&mut self) -> (r: Result<Vec<ASTNode>, ParseError>)
        requires
            old(self).wf(),
        ensures
            final(self).wf(),
            final(self).toks() == old(self).toks(),
            (match r {
                Ok(v) => p_body(old(self).toks(), old(self).at(), Seq::empty()) == Ok::<
                    (Seq<AstView>, int),
                    ParseErrorView,
                >((asts_view(v@), final(self).at())) && old(self).at() <= final(self).at(),
                Err(e) => p_body(old(self).toks(), old(self).at(), Seq::empty()) == Err::<
                    (Seq<AstView>, int),
                    ParseErrorView,
                >(e@),
            }),
    {
        let ghost t = self.toks();
        let ghost i0 = self.at();
        let mut nodes: Vec<ASTNode> = Vec::new();
        proof {
            assert(asts_view(nodes@) =~= Seq::<AstView>::empty());
        }
        loop
            invariant
                self.wf(),
                self.toks() == t,
                i0 <= self.at() < t.len(),
                p_body(t, i0, Seq::empty()) == p_body(t, self.at(), asts_view(nodes@)),
            decreases t.len() - self.at(),
        {
            let ghost pre = self.at();
            self.skip_newlines();
            proof {
                lemma_skip_nl_bounds(t, self.at());
                assert(p_body(t, pre, asts_view(nodes@)) == p_body(
                    t,
                    self.at(),
                    asts_view(nodes@),
                ));
            }
            if self.cur_is_hash(HashWord::Kthxbye) {
                return Ok(nodes);
            }
            if self.cur_is_hash(HashWord::Maek) {
                match self.section() {
                    Err(e) => {
                        return Err(e);
                    },
                    Ok(n) => {
                        proof {
                            lemma_asts_view_push(nodes@, n);
                        }
                        nodes.push(n);
                    },
                }
            } else if self.cur_is_hash(HashWord::IHaz) {
                match self.variable_declaration() {
                    Err(e) => {
                        return Err(e);
                    },
                    Ok(n) => {
                        proof {
                            lemma_asts_view_push(nodes@, n);
                        }
                        nodes.push(n);
                        let ghost mid = self.at();
                        self.skip_newlines();
                        proof {
                            lemma_skip_nl_bounds(t, mid);
                        }
                        if self.cur_is_hash(HashWord::ItIz) {
                            match self.variable_assignment() {
                                Err(e) => {
                                    return Err(e);
                                },
                                Ok(n2) => {
                                    proof {
                                        lemma_asts_view_push(nodes@, n2);
                                    }
                                    nodes.push(n2);
                                },
                            }
                        }
                    },
                }
            } else if self.cur_is_hash(HashWord::LemmeSee) {
                match self.variable_reference() {
                    Err(e) => {
                        return Err(e);
                    },
                    Ok(n) => {
                        proof {
                            lemma_asts_view_push(nodes@, n);
                        }
                        nodes.push(n);
                    },
                }
            } else if self.cur_is_hash(HashWord::Gimmeh) {
                match self.styled_text() {
                    Err(e) => {
                        return Err(e);
                    },
                    Ok(n) => {
                        proof {
                            lemma_asts_view_push(nodes@, n);
                        }
                        nodes.push(n);
                    },
                }
            } else if self.cur_is_eof() {
                return Ok(nodes);
            } else {
                let piece = self.cur_text_or_vardef();
                match piece {
                    Some(x) => {
                        let node = ASTNode::Text { content: x };
                        proof {
                            lemma_asts_view_push(nodes@, node);
                        }
                        nodes.push(node);
                        self.advance();
                    },
                    None => {
                        // any other token is skipped silently
                        self.advance();
                    },
                }
            }
        }
    }

    /// `<program> ::= #HAI <body> #KTHXBYE`, exactly `p_program`; after the
    /// closing word only newlines may remain.
    fn program(&mut self) -> (r: Result<ASTNode, ParseError>)
        requires
            old(self).wf(),
        ensures
            final(self).wf(),
            final(self).toks() == old(self).toks(),
            (match r {
                Ok(n) => p_program(old(self).toks(), old(self).at()) == Ok::<
                    (AstView, int),
                    ParseErrorView,
                >((n@, final(self).at())),
                Err(e) => p_program(old(self).toks(), old(self).at()) == Err::<
                    (AstView, int),
                    ParseErrorView,
                >(e@),
            }),
    {
        let ghost t = self.toks();
        let ghost i = self.at();
        match self.match_hashword(HashWord::Hai) {
            Err(e) => {
                return Err(e);
            },
            Ok(_) => {},
        }
        self.skip_newlines();
        let children = match self.body() {
            Err(e) => {
                return Err(e);
            },
            Ok(v) => v,
        };
        self.skip_newlines();
        proof {
            lemma_skip_nl_bounds(t, self.at());
        }
        match self.match_hashword(HashWord::Kthxbye) {
            Err(e) => {
                return Err(e);
            },
            Ok(_) => {},
        }
        self.skip_newlines();
        if self.cur_is_eof() {
            let ghost cs = asts_view(children@);
            let node = ASTNode::Program { children };
            proof {
                assert(node@ == AstView::Program { children: cs });
            }
            Ok(node)
        } else {
            Err(self.cur_err(ParseErrorKind::TrailingTokens))
        }
    }

    /// Parses the whole token sequence into a tree, or reports the first
    /// syntax error; the result is exactly `p_program` of the tokens.
    pub fn parse(&mut self) -> (r: Result<ASTNode, ParseError>)
        requires
            old(self).wf(),
        ensures
            final(self).wf(),
            final(self).toks() == old(self).toks(),
            (match r {
                Ok(n) => p_program(old(self).toks(), old(self).at()) matches Ok(res)
                    && res.0 == n@,
                Err(e) => p_program(old(self).toks(), old(self).at()) == Err::<
                    (AstView, int),
                    ParseErrorView,
                >(e@),
            }),
    {
        self.program()
    }

}

} // verus!
