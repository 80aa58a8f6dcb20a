use rlox::error::decimal_string;
use rlox::error::ErrorKind;
use rlox::error::ScanError;
use rlox::error::SyntaxError;

#[test]
fn test_simple_error() {
    let line = 1;
    let message = String::from("test");
    let content = String::from("test source code");
    let test_error = SyntaxError::error(line, message.clone(), content.clone());
    assert_eq!(
        test_error,
        String::from(format!("Error: {message}\n\t{line} | {content}"))
    )
}

#[test]
fn test_error_text_larger_line() {
    let text = SyntaxError::error(417, String::from("Unexpected character."), String::new());
    assert_eq!(text, "Error: Unexpected character.\n\t417 | ");
}

#[test]
fn test_decimal_rendering() {
    assert_eq!(decimal_string(0), "0");
    assert_eq!(decimal_string(7), "7");
    assert_eq!(decimal_string(10), "10");
    assert_eq!(decimal_string(12345), "12345");
    assert_eq!(decimal_string(1000000), "1000000");
}

#[test]
fn test_error_messages() {
    let unexpected = ScanError {
        line: 1,
        kind: ErrorKind::UnexpectedCharacter,
    };
    let unterminated = ScanError {
        line: 2,
        kind: ErrorKind::UnterminatedString,
    };
    assert_eq!(unexpected.message(), "Unexpected character.");
    assert_eq!(unterminated.message(), "Unterminated String");
}
