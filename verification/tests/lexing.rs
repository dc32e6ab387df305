use lolmark::lexer::{tokenize, Lexer, LexError, LexErrorKind};
use lolmark::token::{HashWord, Keyword, Token, TokenKind};

fn kinds(tokens: &[Token]) -> Vec<TokenKind> {
    tokens.iter().map(|t| t.kind.clone()).collect()
}

#[test]
fn lexes_a_minimal_program_to_eof() {
    let toks = tokenize("#HAI\n#KTHXBYE\n").expect("lexes");
    assert_eq!(
        kinds(&toks),
        vec![
            TokenKind::HashWord(HashWord::Hai),
            TokenKind::Newline,
            TokenKind::HashWord(HashWord::Kthxbye),
            TokenKind::Newline,
            TokenKind::Eof,
        ]
    );
}

#[test]
fn every_scan_ends_with_exactly_one_eof() {
    let toks = tokenize("#HAI\nsome text 123\n#KTHXBYE\n").expect("lexes");
    assert_eq!(toks.last().unwrap().kind, TokenKind::Eof);
    let eofs = toks
        .iter()
        .filter(|t| matches!(t.kind, TokenKind::Eof))
        .count();
    assert_eq!(eofs, 1);
}

#[test]
fn tracks_line_and_column_of_each_token() {
    let toks = tokenize("#HAI\n  TITLE\n").expect("lexes");
    assert_eq!((toks[0].line, toks[0].col), (1, 1));
    assert_eq!((toks[1].line, toks[1].col), (1, 5)); // the newline
    assert_eq!((toks[2].line, toks[2].col), (2, 3)); // TITLE after two blanks
    assert_eq!(toks[2].kind, TokenKind::Keyword(Keyword::Title));
}

#[test]
fn merges_the_two_word_hashtag_words() {
    let toks = tokenize("#I HAZ x\n#IT IZ y #MKAY\n#LEMME SEE x #MKAY\n").expect("lexes");
    let ks = kinds(&toks);
    assert_eq!(ks[0], TokenKind::HashWord(HashWord::IHaz));
    assert!(ks.contains(&TokenKind::HashWord(HashWord::ItIz)));
    assert!(ks.contains(&TokenKind::HashWord(HashWord::LemmeSee)));
}

#[test]
fn hashtag_words_are_case_insensitive() {
    let toks = tokenize("#hai\n#kthxbye\n").expect("lexes");
    assert_eq!(toks[0].kind, TokenKind::HashWord(HashWord::Hai));
    assert_eq!(toks[2].kind, TokenKind::HashWord(HashWord::Kthxbye));
}

#[test]
fn keywords_are_recognized_and_identifiers_keep_their_case() {
    let toks = tokenize("head Page1\n").expect("lexes");
    assert_eq!(toks[0].kind, TokenKind::Keyword(Keyword::Head));
    assert_eq!(toks[1].kind, TokenKind::VarDef(String::from("Page1")));
}

#[test]
fn free_text_is_trimmed_and_blank_runs_vanish() {
    let toks = tokenize("  12 cats!  \n   \n").expect("lexes");
    assert_eq!(toks[0].kind, TokenKind::Text(String::from("12 cats!")));
    assert_eq!(toks[0].col, 3);
    // the blank run on line 2 yields no token
    assert_eq!(
        kinds(&toks),
        vec![
            TokenKind::Text(String::from("12 cats!")),
            TokenKind::Newline,
            TokenKind::Newline,
            TokenKind::Eof,
        ]
    );
}

#[test]
fn unknown_hash_word_is_reported_at_the_hash() {
    let err = tokenize("#HAI\n  #WAT\n").expect_err("must fail");
    assert_eq!(
        err.kind,
        LexErrorKind::UnknownHashWord {
            word: String::from("WAT")
        }
    );
    assert_eq!((err.line, err.col), (2, 3));
}

#[test]
fn failed_two_word_lookahead_does_not_backtrack() {
    // "#I X": the lookahead consumes the space and "X", then the lone "I"
    // fails the closed-set check.
    let err = tokenize("#I X\n").expect_err("must fail");
    assert_eq!(
        err.kind,
        LexErrorKind::UnknownHashWord {
            word: String::from("I")
        }
    );
    assert_eq!((err.line, err.col), (1, 1));
}

#[test]
fn bare_section_keywords_are_not_hashtag_words() {
    let err = tokenize("#HEAD\n").expect_err("must fail");
    assert_eq!(
        err.kind,
        LexErrorKind::UnknownHashWord {
            word: String::from("HEAD")
        }
    );
}

#[test]
fn comments_are_invisible_to_the_token_stream() {
    let plain = tokenize("#HAI\n#KTHXBYE\n").expect("lexes");
    let commented = tokenize("#HAI #OBTW anything #even #this goes #TLDR\n#KTHXBYE\n")
        .expect("lexes");
    assert_eq!(kinds(&plain), kinds(&commented));
}

#[test]
fn unclosed_comment_is_a_lexical_error() {
    let err = tokenize("#OBTW this has no closing tag").expect_err("must fail");
    assert_eq!(err.kind, LexErrorKind::UnclosedComment);
}

#[test]
fn eof_repeats_once_the_input_is_exhausted() {
    let mut lx = Lexer::new("x");
    let first = lx.get_next_token().expect("token");
    assert_eq!(first.kind, TokenKind::VarDef(String::from("x")));
    let second = lx.get_next_token().expect("token");
    assert_eq!(second.kind, TokenKind::Eof);
    let third = lx.get_next_token().expect("token");
    assert_eq!(third.kind, TokenKind::Eof);
}

#[test]
fn hash_word_and_keyword_sets_are_closed() {
    let lx = Lexer::new("");
    assert!(lx.is_hash_word("HAI"));
    assert!(lx.is_hash_word("I HAZ"));
    assert!(lx.is_hash_word("LEMME SEE"));
    assert!(!lx.is_hash_word("HEAD"));
    assert!(!lx.is_hash_word("hai"));
    assert!(lx.is_keyword("HEAD"));
    assert!(lx.is_keyword("VIDZ"));
    assert!(!lx.is_keyword("HAI"));
}

#[test]
fn errors_can_be_compared_and_cloned() {
    let err = LexError {
        kind: LexErrorKind::UnclosedComment,
        line: 3,
        col: 7,
    };
    assert_eq!(err.clone(), err);
}
