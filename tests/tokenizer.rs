use turtle_compiler::tokenizer::{TError, Token, TokenStream};

fn kinds(src: &str) -> Vec<String> {
    let mut ts = TokenStream::from(src);
    let mut out = Vec::new();
    while let Some(r) = ts.next() {
        match r {
            Ok(t) => out.push(t.str_value().to_string()),
            Err(e) => out.push(format!("{:?}", e)),
        }
    }
    out
}

#[test]
fn str_value_of_each_token() {
    assert_eq!(Token::Vw.str_value(), "VW");
    assert_eq!(Token::Re.str_value(), "RE");
    assert_eq!(Token::Wh.str_value(), "WH");
    assert_eq!(Token::Stift.str_value(), "STIFT");
    assert_eq!(Token::Farbe.str_value(), "FARBE");
    assert_eq!(Token::BOpen.str_value(), "[");
    assert_eq!(Token::BClose.str_value(), "]");
    assert_eq!(Token::Number("42").str_value(), "42");
    assert_eq!(Token::End.str_value(), "{EOF}");
}

#[test]
fn scans_all_token_kinds() {
    assert_eq!(
        kinds("STIFT 3 FARBE 12 WH 2 [ VW 0 RE 90 ]"),
        vec!["STIFT", "3", "FARBE", "12", "WH", "2", "[", "VW", "0", "RE", "90", "]", "{EOF}"]
    );
}

#[test]
fn end_is_produced_once() {
    let mut ts = TokenStream::from("VW");
    assert!(matches!(ts.next(), Some(Ok(Token::Vw))));
    assert!(matches!(ts.next(), Some(Ok(Token::End))));
    assert!(ts.next().is_none());
    assert!(ts.next().is_none());
}

#[test]
fn empty_text_gives_end() {
    assert_eq!(kinds(""), vec!["{EOF}"]);
}

#[test]
fn scanner_stops_after_an_error() {
    let mut ts = TokenStream::from("VW 012 RE 5");
    assert!(matches!(ts.next(), Some(Ok(Token::Vw))));
    assert!(matches!(ts.next(), Some(Err(TError::LeadingZero("012 RE 5")))));
    assert!(ts.next().is_none());
}

#[test]
fn longer_keywords_first() {
    assert_eq!(kinds("STIFT1"), vec!["STIFT", "1", "{EOF}"]);
    assert_eq!(kinds("VWRE"), vec!["VW", "RE", "{EOF}"]);
}

#[test]
fn digits_run_to_the_first_non_digit() {
    assert_eq!(kinds("1234]"), vec!["1234", "]", "{EOF}"]);
    assert_eq!(kinds("0]"), vec!["0", "]", "{EOF}"]);
}

#[test]
fn lone_zero_followed_by_a_letter() {
    assert_eq!(kinds("0VW"), vec!["0", "VW", "{EOF}"]);
}

#[test]
fn numeral_stops_before_letters() {
    assert_eq!(kinds("905VW 3"), vec!["905", "VW", "3", "{EOF}"]);
}

#[test]
fn zero_then_space_then_digit_is_two_numerals() {
    assert_eq!(kinds("0 1"), vec!["0", "1", "{EOF}"]);
}
