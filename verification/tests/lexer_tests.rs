use lexer::lexer::{Lexer, LexerError, LexerErrorValue, Token, TokenValue};

fn scan(input: &[u8]) -> Result<Vec<Token>, LexerError> {
    let mut lexer = Lexer::from_cstream(input);
    lexer.execute()
}

fn tok(value: TokenValue, line: usize, column: usize) -> Token {
    Token { value, line, column }
}

#[test]
fn digits_scan_to_a_single_number_token() {
    assert_eq!(
        scan(b"12345"),
        Ok(vec![tok(TokenValue::Number(12345), 1, 1)])
    );
}

#[test]
fn leading_zeros_keep_the_base_10_value() {
    assert_eq!(scan(b"007"), Ok(vec![tok(TokenValue::Number(7), 1, 1)]));
}

#[test]
fn number_at_the_widest_representable_value() {
    assert_eq!(
        scan(b"2147483647"),
        Ok(vec![tok(TokenValue::Number(2147483647), 1, 1)])
    );
}

#[test]
fn number_past_the_widest_representable_value_saturates() {
    assert_eq!(
        scan(b"2147483648"),
        Ok(vec![tok(TokenValue::Number(2147483647), 1, 1)])
    );
}

#[test]
fn empty_input_succeeds_with_no_tokens() {
    assert_eq!(scan(b""), Ok(vec![]));
}

#[test]
fn double_equal_is_one_token_not_two_equals() {
    assert_eq!(
        scan(b"=="),
        Ok(vec![tok(TokenValue::DoubleEqual, 1, 1)])
    );
}

#[test]
fn true_keyword_is_one_boolean_token() {
    assert_eq!(
        scan(b"True"),
        Ok(vec![tok(TokenValue::Boolean(true), 1, 1)])
    );
}

#[test]
fn false_keyword_is_one_boolean_token() {
    assert_eq!(
        scan(b"False"),
        Ok(vec![tok(TokenValue::Boolean(false), 1, 1)])
    );
}

#[test]
fn token_after_a_newline_is_on_line_two_column_one() {
    assert_eq!(
        scan(b"1\n22"),
        Ok(vec![
            tok(TokenValue::Number(1), 1, 1),
            tok(TokenValue::Whitespace, 1, 2),
            tok(TokenValue::Number(22), 2, 1),
        ])
    );
}

#[test]
fn unrecognized_byte_fails_at_its_position() {
    assert_eq!(
        scan(b"@"),
        Err(LexerError {
            value: LexerErrorValue::UnrecognizedToken,
            line: 1,
            column: 1,
        })
    );
}

#[test]
fn unrecognized_byte_after_a_newline_reports_line_two() {
    assert_eq!(
        scan(b"\n@"),
        Err(LexerError {
            value: LexerErrorValue::UnrecognizedToken,
            line: 2,
            column: 1,
        })
    );
}

#[test]
fn unrecognized_byte_after_a_keyword_reports_its_column() {
    assert_eq!(
        scan(b"Truex"),
        Err(LexerError {
            value: LexerErrorValue::UnrecognizedToken,
            line: 1,
            column: 5,
        })
    );
}

#[test]
fn parenthesized_sum_scans_end_to_end() {
    assert_eq!(
        scan(b"(1 + 2)"),
        Ok(vec![
            tok(TokenValue::OpenRoundBracket, 1, 1),
            tok(TokenValue::Number(1), 1, 2),
            tok(TokenValue::Whitespace, 1, 3),
            tok(TokenValue::Cross, 1, 4),
            tok(TokenValue::Whitespace, 1, 5),
            tok(TokenValue::Number(2), 1, 6),
            tok(TokenValue::CloseRoundBracket, 1, 7),
        ])
    );
}

#[test]
fn rescanning_the_same_buffer_is_identical() {
    let input: &[u8] = b"(1 + 2) == 3 && True";
    assert_eq!(scan(input), scan(input));
}

#[test]
fn excl_gets_its_own_token_kind() {
    let tokens = scan(b"!").unwrap();
    assert_eq!(tokens, vec![tok(TokenValue::Excl, 1, 1)]);
    assert_ne!(tokens[0].value, TokenValue::CloseCurlyBracket);
}

#[test]
fn excl_equal_is_one_token_not_excl_then_equal() {
    assert_eq!(
        scan(b"!="),
        Ok(vec![tok(TokenValue::ExclEqual, 1, 1)])
    );
}

#[test]
fn every_single_character_lexeme_scans_to_its_kind() {
    assert_eq!(
        scan(b"=+-*/(){}"),
        Ok(vec![
            tok(TokenValue::Equal, 1, 1),
            tok(TokenValue::Cross, 1, 2),
            tok(TokenValue::Dash, 1, 3),
            tok(TokenValue::Star, 1, 4),
            tok(TokenValue::Slash, 1, 5),
            tok(TokenValue::OpenRoundBracket, 1, 6),
            tok(TokenValue::CloseRoundBracket, 1, 7),
            tok(TokenValue::OpenCurlyBracket, 1, 8),
            tok(TokenValue::CloseCurlyBracket, 1, 9),
        ])
    );
}

#[test]
fn double_and_is_one_token() {
    assert_eq!(scan(b"&&"), Ok(vec![tok(TokenValue::DoubleAnd, 1, 1)]));
}

#[test]
fn double_pipe_is_one_token() {
    assert_eq!(scan(b"||"), Ok(vec![tok(TokenValue::DoublePipe, 1, 1)]));
}

#[test]
fn lone_ampersand_is_unrecognized() {
    assert_eq!(
        scan(b"&"),
        Err(LexerError {
            value: LexerErrorValue::UnrecognizedToken,
            line: 1,
            column: 1,
        })
    );
}

#[test]
fn a_whitespace_run_with_a_newline_is_one_token() {
    assert_eq!(
        scan(b"+ \n\t-"),
        Ok(vec![
            tok(TokenValue::Cross, 1, 1),
            tok(TokenValue::Whitespace, 1, 2),
            tok(TokenValue::Dash, 2, 2),
        ])
    );
}

#[test]
fn carriage_return_is_whitespace() {
    assert_eq!(scan(b"\r"), Ok(vec![tok(TokenValue::Whitespace, 1, 1)]));
}

#[test]
fn recognizers_can_be_tried_one_at_a_time() {
    let input: &[u8] = b"12+";
    let mut lexer = Lexer::from_cstream(input);
    assert_eq!(
        lexer.try_extract_number(),
        Some(tok(TokenValue::Number(12), 1, 1))
    );
    assert_eq!(lexer.try_extract_number(), None);
    assert_eq!(lexer.try_extract_whitespace(), None);
    assert_eq!(lexer.try_extract_doubles(), None);
    assert_eq!(
        lexer.try_extract_singles(),
        Some(tok(TokenValue::Cross, 1, 3))
    );
    assert_eq!(lexer.try_extract_boolean(), None);
}

#[test]
fn demo_expression_scans_end_to_end() {
    let input: &[u8] = b"(11 + 12) \n* False - 123 {} || && ===";
    assert_eq!(
        scan(input),
        Ok(vec![
            tok(TokenValue::OpenRoundBracket, 1, 1),
            tok(TokenValue::Number(11), 1, 2),
            tok(TokenValue::Whitespace, 1, 4),
            tok(TokenValue::Cross, 1, 5),
            tok(TokenValue::Whitespace, 1, 6),
            tok(TokenValue::Number(12), 1, 7),
            tok(TokenValue::CloseRoundBracket, 1, 9),
            tok(TokenValue::Whitespace, 1, 10),
            tok(TokenValue::Star, 2, 1),
            tok(TokenValue::Whitespace, 2, 2),
            tok(TokenValue::Boolean(false), 2, 3),
            tok(TokenValue::Whitespace, 2, 8),
            tok(TokenValue::Dash, 2, 9),
            tok(TokenValue::Whitespace, 2, 10),
            tok(TokenValue::Number(123), 2, 11),
            tok(TokenValue::Whitespace, 2, 14),
            tok(TokenValue::OpenCurlyBracket, 2, 15),
            tok(TokenValue::CloseCurlyBracket, 2, 16),
            tok(TokenValue::Whitespace, 2, 17),
            tok(TokenValue::DoublePipe, 2, 18),
            tok(TokenValue::Whitespace, 2, 20),
            tok(TokenValue::DoubleAnd, 2, 21),
            tok(TokenValue::Whitespace, 2, 23),
            tok(TokenValue::DoubleEqual, 2, 24),
            tok(TokenValue::Equal, 2, 26),
        ])
    );
}
