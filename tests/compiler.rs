use turtle_compiler::compiler::{compile_source, CompileError, Compiler, Expected, PAGE_HEAD, PAGE_TAIL};
use turtle_compiler::tokenizer::{TError, Token};

fn body_of(page: &str) -> &str {
    assert!(page.starts_with(PAGE_HEAD));
    assert!(page.ends_with(PAGE_TAIL));
    &page[PAGE_HEAD.len()..page.len() - PAGE_TAIL.len()]
}

#[test]
fn repeat_zero_emits_nothing() {
    let page = compile_source("WH 0 [ VW 10 ]").unwrap();
    assert_eq!(body_of(&page), "");
    assert!(!page.contains("turtle.move"));
}

#[test]
fn square_is_unrolled_in_order() {
    let page = compile_source("WH 4 [ VW 30 RE 90 ]").unwrap();
    let one = "turtle.move(30);\nturtle.turnRight(90);\n";
    assert_eq!(body_of(&page), one.repeat(4));
}

#[test]
fn missing_number_after_re_is_fatal() {
    let r = compile_source("VW 30 RE");
    assert!(matches!(r, Err(CompileError::Unexpected(Expected::NumberAfterRe, Token::End))));
}

#[test]
fn missing_close_bracket_is_fatal() {
    let r = compile_source("WH 2 [ VW 10");
    assert!(matches!(r, Err(CompileError::Unexpected(Expected::CloseBracket, Token::End))));
}

#[test]
fn empty_source_gives_empty_page() {
    let page = compile_source("").unwrap();
    assert_eq!(page, format!("{}{}", PAGE_HEAD, PAGE_TAIL));
    assert_eq!(body_of(&page), "");
}

#[test]
fn compiling_twice_is_identical() {
    let src = "STIFT 2 FARBE 3 WH 3 [ VW 5 WH 2 [ RE 45 ] ]";
    assert_eq!(compile_source(src).unwrap(), compile_source(src).unwrap());
}

#[test]
fn zero_is_a_numeral() {
    let page = compile_source("VW 0").unwrap();
    assert_eq!(body_of(&page), "turtle.move(0);\n");
}

#[test]
fn leading_zero_is_rejected() {
    let r = compile_source("VW 05");
    assert!(matches!(r, Err(CompileError::Lexical(TError::LeadingZero("05")))));
    let r = compile_source("WH 007 [ ]");
    assert!(matches!(r, Err(CompileError::Lexical(TError::LeadingZero("007 [ ]")))));
}

#[test]
fn zero_inside_a_numeral_is_fine() {
    let page = compile_source("VW 100 RE 90").unwrap();
    assert_eq!(body_of(&page), "turtle.move(100);\nturtle.turnRight(90);\n");
}

#[test]
fn every_command_emits_its_instruction() {
    let page = compile_source("VW 1 RE 2 STIFT 3 FARBE 4").unwrap();
    assert_eq!(
        body_of(&page),
        "turtle.move(1);\nturtle.turnRight(2);\nturtle.setStrokeWidth(3);\nturtle.setColor(4)\n"
    );
}

#[test]
fn nested_repeats_multiply() {
    let page = compile_source("WH 2 [ VW 1 WH 3 [ RE 2 ] ]").unwrap();
    let inner = "turtle.turnRight(2);\n".repeat(3);
    let once = format!("turtle.move(1);\n{}", inner);
    assert_eq!(body_of(&page), once.repeat(2));
}

#[test]
fn unknown_text_is_a_syntax_error() {
    let r = compile_source("VW 10 LINKS 90");
    assert!(matches!(r, Err(CompileError::Lexical(TError::SyntaxError("LINKS 90")))));
}

#[test]
fn leading_whitespace_is_a_syntax_error() {
    let r = compile_source(" VW 10");
    assert!(matches!(r, Err(CompileError::Lexical(TError::SyntaxError(" VW 10")))));
}

#[test]
fn unicode_whitespace_separates_tokens() {
    let page = compile_source("VW\u{3000}10\t\nRE\u{a0}5  ").unwrap();
    assert_eq!(body_of(&page), "turtle.move(10);\nturtle.turnRight(5);\n");
}

#[test]
fn tokens_need_no_whitespace() {
    let page = compile_source("WH2[VW7]").unwrap();
    assert_eq!(body_of(&page), "turtle.move(7);\nturtle.move(7);\n");
}

#[test]
fn statement_expected_error() {
    let r = compile_source("[ VW 1 ]");
    assert!(matches!(r, Err(CompileError::Unexpected(Expected::Statement, Token::BOpen))));
    let r = compile_source("VW 1 5");
    assert!(matches!(r, Err(CompileError::Unexpected(Expected::Statement, Token::Number("5")))));
}

#[test]
fn number_expected_errors() {
    assert!(matches!(
        compile_source("VW RE"),
        Err(CompileError::Unexpected(Expected::NumberAfterVw, Token::Re))
    ));
    assert!(matches!(
        compile_source("STIFT ["),
        Err(CompileError::Unexpected(Expected::NumberAfterStift, Token::BOpen))
    ));
    assert!(matches!(
        compile_source("FARBE"),
        Err(CompileError::Unexpected(Expected::NumberAfterFarbe, Token::End))
    ));
    assert!(matches!(
        compile_source("WH ]"),
        Err(CompileError::Unexpected(Expected::NumberAfterWh, Token::BClose))
    ));
}

#[test]
fn open_bracket_expected_error() {
    let r = compile_source("WH 2 VW 1");
    assert!(matches!(r, Err(CompileError::Unexpected(Expected::OpenBracket, Token::Vw))));
}

#[test]
fn close_bracket_expected_at_end() {
    let r = compile_source("WH 2 [ VW 1 WH 1 [ RE 3 ]");
    assert!(matches!(r, Err(CompileError::Unexpected(Expected::CloseBracket, Token::End))));
}

#[test]
fn huge_repeat_count_is_rejected() {
    let r = compile_source("WH 99999999999999999999999 [ VW 1 ]");
    assert!(matches!(r, Err(CompileError::CountTooLarge("99999999999999999999999"))));
}

#[test]
fn stray_close_bracket_ends_the_program() {
    let page = compile_source("VW 1 ] VW 2").unwrap();
    assert_eq!(body_of(&page), "turtle.move(1);\n");
}

#[test]
fn first_token_error_comes_from_init() {
    assert!(matches!(
        Compiler::init("?"),
        Err(CompileError::Lexical(TError::SyntaxError("?")))
    ));
}

#[test]
fn init_then_compile() {
    let mut c = Compiler::init("WH 4 [ VW 30 RE 90 ]").unwrap();
    let page = c.compile().unwrap();
    assert_eq!(page, compile_source("WH 4 [ VW 30 RE 90 ]").unwrap());
}

#[test]
fn parse_error_comes_before_later_lexical_error() {
    let r = compile_source("VW [ 05");
    assert!(matches!(r, Err(CompileError::Unexpected(Expected::NumberAfterVw, Token::BOpen))));
}

#[test]
fn programs_in_a_row_concatenate() {
    let a = compile_source("VW 1 WH 2 [ RE 3 ]").unwrap();
    let b = compile_source("STIFT 4 FARBE 5").unwrap();
    let both = compile_source("VW 1 WH 2 [ RE 3 ] STIFT 4 FARBE 5").unwrap();
    assert_eq!(body_of(&both), format!("{}{}", body_of(&a), body_of(&b)));
}

#[test]
fn repeat_block_body_written_n_times() {
    let body = compile_source("VW 2 RE 60").unwrap();
    let rep = compile_source("WH 6 [ VW 2 RE 60 ]").unwrap();
    assert_eq!(body_of(&rep), body_of(&body).repeat(6));
}

#[test]
fn any_whitespace_between_tokens() {
    let page = compile_source("WH\t3\n[\r\n  VW 7\u{2003}]\n\n").unwrap();
    assert_eq!(body_of(&page), "turtle.move(7);\n".repeat(3));
}
