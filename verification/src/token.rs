//! Tokens of the markup language: the closed sets of hashtag words and bare
//! keywords, free-form text, identifiers, newlines and end of input, each
//! carrying its 1-indexed source position.

use vstd::prelude::*;

use crate::text::ci_seq_eq;

verus! {

/// The closed set of `#`-prefixed structural words.
#[derive(Clone, Copy, PartialEq, Eq, Structural, Debug)]
pub enum HashWord {
    Hai,
    Kthxbye,
    Obtw,
    Tldr,
    Maek,
    Oic,
    Gimmeh,
    Mkay,
    IHaz,
    ItIz,
    LemmeSee,
}

/// The closed set of bare reserved words naming sections and styles.
#[derive(Clone, Copy, PartialEq, Eq, Structural, Debug)]
pub enum Keyword {
    Head,
    Title,
    Paragraf,
    Bold,
    Italics,
    List,
    Item,
    Newline,
    Soundz,
    Vidz,
}

/// A token's payload. Free-form text and identifiers keep their source
/// spelling; structural words are classified into the closed sets above.
#[derive(Clone, PartialEq, Eq, Debug)]
pub enum TokenKind {
    HashWord(HashWord),
    Keyword(Keyword),
    Text(String),
    VarDef(String),
    Newline,
    Eof,
}

/// Mathematical image of a `TokenKind`: text payloads become `Seq<char>`.
pub enum TokenKindView {
    HashWord(HashWord),
    Keyword(Keyword),
    Text(Seq<char>),
    VarDef(Seq<char>),
    Newline,
    Eof,
}

impl View for TokenKind {
    type V = TokenKindView;

    open spec fn view(&self) -> TokenKindView {
        match self {
            TokenKind::HashWord(h) => TokenKindView::HashWord(*h),
            TokenKind::Keyword(k) => TokenKindView::Keyword(*k),
            TokenKind::Text(t) => TokenKindView::Text(t@),
            TokenKind::VarDef(v) => TokenKindView::VarDef(v@),
            TokenKind::Newline => TokenKindView::Newline,
            TokenKind::Eof => TokenKindView::Eof,
        }
    }
}

/// A classified token together with the 1-indexed line and column of its
/// first source character.
#[derive(Clone, PartialEq, Eq, Debug)]
pub struct Token {
    pub kind: TokenKind,
    pub line: usize,
    pub col: usize,
}

pub struct TokenView {
    pub kind: TokenKindView,
    pub line: int,
    pub col: int,
}

impl View for Token {
    type V = TokenView;

    open spec fn view(&self) -> TokenView {
        TokenView { kind: self.kind@, line: self.line as int, col: self.col as int }
    }
}

/// The view of a token sequence, element by element.
pub open spec fn tokens_view(s: Seq<Token>) -> Seq<TokenView> {
    s.map_values(|t: Token| t@)
}

/// Classifies a single word, case-insensitively, against the closed set of
/// one-word hashtag words.
pub open spec fn hash_word_of(w: Seq<char>) -> Option<HashWord> {
    if ci_seq_eq(w, "HAI"@) {
        Some(HashWord::Hai)
    } else if ci_seq_eq(w, "KTHXBYE"@) {
        Some(HashWord::Kthxbye)
    } else if ci_seq_eq(w, "OBTW"@) {
        Some(HashWord::Obtw)
    } else if ci_seq_eq(w, "TLDR"@) {
        Some(HashWord::Tldr)
    } else if ci_seq_eq(w, "MAEK"@) {
        Some(HashWord::Maek)
    } else if ci_seq_eq(w, "OIC"@) {
        Some(HashWord::Oic)
    } else if ci_seq_eq(w, "GIMMEH"@) {
        Some(HashWord::Gimmeh)
    } else if ci_seq_eq(w, "MKAY"@) {
        Some(HashWord::Mkay)
    } else {
        None
    }
}

/// True when a word opens one of the two-word hashtag words, so that the
/// lexer commits to its one-shot lookahead.
pub open spec fn opens_pair(w: Seq<char>) -> bool {
    ci_seq_eq(w, "I"@) || ci_seq_eq(w, "IT"@) || ci_seq_eq(w, "LEMME"@)
}

/// The two-word hashtag word spelled by `first` and `second`, if any.
pub open spec fn pair_word_of(first: Seq<char>, second: Seq<char>) -> Option<HashWord> {
    if ci_seq_eq(first, "I"@) && ci_seq_eq(second, "HAZ"@) {
        Some(HashWord::IHaz)
    } else if ci_seq_eq(first, "IT"@) && ci_seq_eq(second, "IZ"@) {
        Some(HashWord::ItIz)
    } else if ci_seq_eq(first, "LEMME"@) && ci_seq_eq(second, "SEE"@) {
        Some(HashWord::LemmeSee)
    } else {
        None
    }
}

/// Classifies a bare word, case-insensitively, against the closed keyword set.
pub open spec fn keyword_of(w: Seq<char>) -> Option<Keyword> {
    if ci_seq_eq(w, "HEAD"@) {
        Some(Keyword::Head)
    } else if ci_seq_eq(w, "TITLE"@) {
        Some(Keyword::Title)
    } else if ci_seq_eq(w, "PARAGRAF"@) {
        Some(Keyword::Paragraf)
    } else if ci_seq_eq(w, "BOLD"@) {
        Some(Keyword::Bold)
    } else if ci_seq_eq(w, "ITALICS"@) {
        Some(Keyword::Italics)
    } else if ci_seq_eq(w, "LIST"@) {
        Some(Keyword::List)
    } else if ci_seq_eq(w, "ITEM"@) {
        Some(Keyword::Item)
    } else if ci_seq_eq(w, "NEWLINE"@) {
        Some(Keyword::Newline)
    } else if ci_seq_eq(w, "SOUNDZ"@) {
        Some(Keyword::Soundz)
    } else if ci_seq_eq(w, "VIDZ"@) {
        Some(Keyword::Vidz)
    } else {
        None
    }
}

/// The upper-case spelling of a keyword.
pub open spec fn keyword_text(k: Keyword) -> Seq<char> {
    match k {
        Keyword::Head => "HEAD"@,
        Keyword::Title => "TITLE"@,
        Keyword::Paragraf => "PARAGRAF"@,
        Keyword::Bold => "BOLD"@,
        Keyword::Italics => "ITALICS"@,
        Keyword::List => "LIST"@,
        Keyword::Item => "ITEM"@,
        Keyword::Newline => "NEWLINE"@,
        Keyword::Soundz => "SOUNDZ"@,
        Keyword::Vidz => "VIDZ"@,
    }
}

/// The upper-case spelling of a keyword, as a string.
pub fn keyword_name(k: Keyword) -> (r: &'static str)
    ensures
        r@ == keyword_text(k),
{
    match k {
        Keyword::Head => "HEAD",
        Keyword::Title => "TITLE",
        Keyword::Paragraf => "PARAGRAF",
        Keyword::Bold => "BOLD",
        Keyword::Italics => "ITALICS",
        Keyword::List => "LIST",
        Keyword::Item => "ITEM",
        Keyword::Newline => "NEWLINE",
        Keyword::Soundz => "SOUNDZ",
        Keyword::Vidz => "VIDZ",
    }
}

} // verus!
