use lolmark::compile;
use lolmark::CompileError;
use lolmark::parser::{ASTNode, LolcodeParser, ParseErrorKind};
use lolmark::semantic::LolcodeSemanticAnalyzer;
use lolmark::token::HashWord;

#[test]
fn head_section_title_becomes_h1() {
    let html = compile("#HAI\n#MAEK HEAD\n#GIMMEH TITLE My Page #MKAY\n#OIC\n#KTHXBYE\n")
        .expect("compiles");
    assert!(html.contains("<h1>My Page</h1>"));
}

#[test]
fn paragraf_substitutes_an_assigned_variable() {
    let html = compile(
        "#HAI\n#MAEK PARAGRAF\n#I HAZ x\n#IT IZ hello #MKAY\n#LEMME SEE x #MKAY\n#OIC\n#KTHXBYE\n",
    )
    .expect("compiles");
    assert!(html.contains("<p>\nhello </p>\n"));
}

#[test]
fn undeclared_reference_fails_validation_with_one_error() {
    let err = compile("#HAI\n#MAEK PARAGRAF\n#LEMME SEE y #MKAY\n#OIC\n#KTHXBYE\n")
        .expect_err("must fail");
    match err {
        CompileError::Semantic(errors) => {
            assert_eq!(
                errors,
                vec![String::from("Variable 'y' is used but never declared")]
            );
        }
        other => panic!("expected semantic errors, got {:?}", other),
    }
}

#[test]
fn unclosed_comment_never_reaches_the_parser() {
    let err = compile("#HAI\n#OBTW this has no closing tag").expect_err("must fail");
    match err {
        CompileError::Lex(e) => {
            assert_eq!(e.kind, lolmark::lexer::LexErrorKind::UnclosedComment);
        }
        other => panic!("expected a lexical error, got {:?}", other),
    }
}

#[test]
fn list_section_emits_items_in_source_order() {
    let html = compile(
        "#HAI\n#MAEK LIST\n#GIMMEH ITEM one #MKAY\n#GIMMEH ITEM two #MKAY\n#OIC\n#KTHXBYE\n",
    )
    .expect("compiles");
    let ul = html.find("<ul>").expect("has a list");
    let one = html.find("<li>one </li>").expect("first item");
    let two = html.find("<li>two </li>").expect("second item");
    let close = html.find("</ul>").expect("list closes");
    assert!(ul < one && one < two && two < close);
}

#[test]
fn compiling_twice_gives_byte_identical_html() {
    let src = "#HAI\n#MAEK HEAD\n#GIMMEH TITLE Twice #MKAY\n#OIC\n#MAEK PARAGRAF\nwords here\n#OIC\n#KTHXBYE\n";
    let first = compile(src).expect("compiles");
    let second = compile(src).expect("compiles");
    assert_eq!(first, second);
}

#[test]
fn comment_blocks_do_not_change_the_compiled_output() {
    let plain = compile("#HAI\n#MAEK HEAD\n#GIMMEH TITLE Quiet #MKAY\n#OIC\n#KTHXBYE\n")
        .expect("compiles");
    let commented = compile(
        "#HAI #OBTW an aside #TLDR\n#MAEK HEAD\n#GIMMEH TITLE Quiet #MKAY\n#OIC\n#KTHXBYE\n",
    )
    .expect("compiles");
    assert_eq!(plain, commented);
}

#[test]
fn sibling_sections_do_not_share_bindings() {
    let err = compile(
        "#HAI\n#MAEK PARAGRAF\n#I HAZ x\n#IT IZ hi #MKAY\n#OIC\n#MAEK PARAGRAF\n#LEMME SEE x #MKAY\n#OIC\n#KTHXBYE\n",
    )
    .expect_err("must fail");
    match err {
        CompileError::Semantic(errors) => {
            assert_eq!(
                errors,
                vec![String::from("Variable 'x' is used but never declared")]
            );
        }
        other => panic!("expected semantic errors, got {:?}", other),
    }
}

#[test]
fn nested_sections_see_outer_bindings() {
    let html = compile(
        "#HAI\n#MAEK PARAGRAF\n#I HAZ x\n#IT IZ deep #MKAY\n#MAEK PARAGRAF\n#LEMME SEE x #MKAY\n#OIC\n#OIC\n#KTHXBYE\n",
    )
    .expect("compiles");
    assert!(html.contains("deep "));
}

#[test]
fn shadowing_in_a_nested_section_is_allowed() {
    let result = compile(
        "#HAI\n#MAEK PARAGRAF\n#I HAZ x\n#IT IZ outer #MKAY\n#MAEK PARAGRAF\n#I HAZ x\n#IT IZ inner #MKAY\n#LEMME SEE x #MKAY\n#OIC\n#OIC\n#KTHXBYE\n",
    );
    let html = result.expect("shadowing is not an error");
    assert!(html.contains("inner "));
}

#[test]
fn redeclaring_in_the_same_section_is_one_error() {
    let err = compile(
        "#HAI\n#MAEK PARAGRAF\n#I HAZ x\n#I HAZ x\n#OIC\n#KTHXBYE\n",
    )
    .expect_err("must fail");
    match err {
        CompileError::Semantic(errors) => {
            assert_eq!(
                errors,
                vec![String::from("Variable 'x' is already declared in this scope")]
            );
        }
        other => panic!("expected semantic errors, got {:?}", other),
    }
}

#[test]
fn bold_and_italics_wrap_their_content() {
    let html = compile(
        "#HAI\n#MAEK PARAGRAF\n#GIMMEH BOLD loud #MKAY\n#GIMMEH ITALICS soft #MKAY\n#OIC\n#KTHXBYE\n",
    )
    .expect("compiles");
    assert!(html.contains("<b>loud </b>"));
    assert!(html.contains("<i>soft </i>"));
}

#[test]
fn styled_newline_becomes_a_br_tag() {
    let html = compile("#HAI\n#MAEK PARAGRAF\nfirst\n#GIMMEH NEWLINE\nsecond\n#OIC\n#KTHXBYE\n")
        .expect("compiles");
    assert!(html.contains("first <br>\nsecond "));
}

#[test]
fn soundz_and_vidz_take_urls() {
    let html = compile(
        "#HAI\n#MAEK PARAGRAF\n#GIMMEH SOUNDZ www.example.com/a.ogg #MKAY\n#GIMMEH VIDZ www.example.com/b.webm #MKAY\n#OIC\n#KTHXBYE\n",
    )
    .expect("compiles");
    assert!(html.contains("<audio controls src=\"www.example.com/a.ogg\"></audio>"));
    assert!(html.contains("<video controls src=\"www.example.com/b.webm\"></video>"));
}

#[test]
fn variable_reference_inside_bold_is_substituted() {
    let html = compile(
        "#HAI\n#MAEK PARAGRAF\n#I HAZ shout\n#IT IZ HEY #MKAY\n#GIMMEH BOLD #LEMME SEE shout #MKAY #MKAY\n#OIC\n#KTHXBYE\n",
    )
    .expect("compiles");
    assert!(html.contains("<b>HEY </b>"));
}

#[test]
fn document_skeleton_wraps_the_body() {
    let html = compile("#HAI\n#KTHXBYE\n").expect("compiles");
    assert!(html.starts_with(
        "<!DOCTYPE html>\n<html>\n<head>\n<meta charset=\"UTF-8\">\n<title>LOLCODE Markdown</title>\n</head>\n<body>\n"
    ));
    assert!(html.ends_with("</body>\n</html>"));
}

#[test]
fn missing_program_opener_is_a_syntax_error() {
    let err = compile("#MAEK HEAD\n#OIC\n#KTHXBYE\n").expect_err("must fail");
    match err {
        CompileError::Parse(e) => {
            assert_eq!(
                e.kind,
                ParseErrorKind::ExpectedHashWord {
                    expected: HashWord::Hai
                }
            );
            assert_eq!((e.line, e.col), (1, 1));
        }
        other => panic!("expected a syntax error, got {:?}", other),
    }
}

#[test]
fn tokens_after_kthxbye_are_a_syntax_error() {
    let err = compile("#HAI\n#KTHXBYE\nleftover\n").expect_err("must fail");
    match err {
        CompileError::Parse(e) => {
            assert_eq!(e.kind, ParseErrorKind::TrailingTokens);
        }
        other => panic!("expected a syntax error, got {:?}", other),
    }
}

#[test]
fn unterminated_section_is_a_syntax_error() {
    let err = compile("#HAI\n#MAEK PARAGRAF\nwords\n#KTHXBYE\n").expect_err("must fail");
    match err {
        CompileError::Parse(_) => {}
        other => panic!("expected a syntax error, got {:?}", other),
    }
}

#[test]
fn parser_exposes_the_tree_of_a_valid_program() {
    let mut parser = LolcodeParser::new("#HAI\n#MAEK LIST\n#GIMMEH ITEM a #MKAY\n#OIC\n#KTHXBYE\n")
        .expect("lexes");
    let tree = parser.parse().expect("parses");
    match tree {
        ASTNode::Program { children } => {
            assert_eq!(children.len(), 1);
            match &children[0] {
                ASTNode::ListSection { children } => assert_eq!(children.len(), 1),
                other => panic!("expected a list section, got {:?}", other),
            }
        }
        other => panic!("expected a program node, got {:?}", other),
    }
}

#[test]
fn analyzer_tracks_declarations_in_the_current_scope() {
    let mut analyzer = LolcodeSemanticAnalyzer::new();
    analyzer.traverse(&ASTNode::VariableDeclaration {
        name: String::from("pet"),
    });
    let scope = analyzer.get_current_scope();
    assert_eq!(scope.get("pet"), Some(None));
    assert_eq!(scope.get("other"), None);
    assert!(analyzer.errors().is_empty());
    analyzer.traverse(&ASTNode::VariableAssignment {
        name: String::new(),
        value: String::from("cat"),
    });
    assert_eq!(
        analyzer.lookup_variable("pet"),
        Some(Some(String::from("cat")))
    );
}

#[test]
fn generation_replaces_unbound_references_with_a_placeholder() {
    let mut analyzer = LolcodeSemanticAnalyzer::new();
    let html = analyzer.generate_html_with_traversal(&ASTNode::VariableReference {
        name: String::from("ghostly"),
    });
    assert_eq!(html, "[undefined: ghostly]");
}

#[test]
fn trimming_strips_whitespace_from_both_ends() {
    assert_eq!(lolmark::text::trim_str("  12 cats \r\n"), "12 cats");
    assert_eq!(lolmark::text::trim_str(" \t "), "");
    assert_eq!(lolmark::text::trim_str("solid"), "solid");
}

#[test]
fn maek_without_a_section_keyword_is_an_error() {
    let err = compile("#HAI\n#MAEK 42\n#OIC\n#KTHXBYE\n").expect_err("must fail");
    match err {
        CompileError::Parse(e) => {
            assert_eq!(e.kind, ParseErrorKind::ExpectedSectionKeyword);
        }
        other => panic!("expected a syntax error, got {:?}", other),
    }
}

#[test]
fn maek_with_a_non_section_keyword_is_an_error() {
    let err = compile("#HAI\n#MAEK BOLD\n#OIC\n#KTHXBYE\n").expect_err("must fail");
    match err {
        CompileError::Parse(e) => {
            assert_eq!(e.kind, ParseErrorKind::UnknownSectionType);
        }
        other => panic!("expected a syntax error, got {:?}", other),
    }
}

#[test]
fn declaration_without_a_name_is_an_error() {
    let err = compile("#HAI\n#MAEK PARAGRAF\n#I HAZ #MKAY\n#OIC\n#KTHXBYE\n")
        .expect_err("must fail");
    match err {
        CompileError::Parse(e) => {
            assert_eq!(e.kind, ParseErrorKind::ExpectedVariableName);
        }
        other => panic!("expected a syntax error, got {:?}", other),
    }
}

#[test]
fn assignment_run_must_close_with_mkay() {
    let err = compile(
        "#HAI\n#MAEK PARAGRAF\n#I HAZ x\n#IT IZ broken\n#OIC\n#KTHXBYE\n",
    )
    .expect_err("must fail");
    match err {
        CompileError::Parse(e) => {
            assert_eq!(
                e.kind,
                ParseErrorKind::ExpectedHashWord {
                    expected: HashWord::Mkay
                }
            );
        }
        other => panic!("expected a syntax error, got {:?}", other),
    }
}

#[test]
fn non_style_keyword_after_gimmeh_falls_back_to_plain_text() {
    // the grammar tolerates #GIMMEH HEAD ... #MKAY and renders it as the
    // keyword's name followed by " text"
    let html = compile("#HAI\n#MAEK PARAGRAF\n#GIMMEH HEAD x #MKAY\n#OIC\n#KTHXBYE\n")
        .expect("compiles");
    assert!(html.contains("HEAD text "));
}

#[test]
fn unassigned_reference_is_its_own_error() {
    let err = compile(
        "#HAI\n#MAEK PARAGRAF\n#I HAZ x\n#LEMME SEE x #MKAY\n#OIC\n#KTHXBYE\n",
    )
    .expect_err("must fail");
    match err {
        CompileError::Semantic(errors) => {
            assert_eq!(
                errors,
                vec![String::from("Variable 'x' is used but never assigned a value")]
            );
        }
        other => panic!("expected semantic errors, got {:?}", other),
    }
}

#[test]
fn validation_reports_every_semantic_error_at_once() {
    let err = compile(
        "#HAI\n#MAEK PARAGRAF\n#LEMME SEE a #MKAY\n#LEMME SEE b #MKAY\n#OIC\n#KTHXBYE\n",
    )
    .expect_err("must fail");
    match err {
        CompileError::Semantic(errors) => {
            assert_eq!(
                errors,
                vec![
                    String::from("Variable 'a' is used but never declared"),
                    String::from("Variable 'b' is used but never declared"),
                ]
            );
        }
        other => panic!("expected semantic errors, got {:?}", other),
    }
}
