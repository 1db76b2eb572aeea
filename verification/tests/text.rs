//! Tests of the tokenizer, the parser, the layout arithmetic, and the
//! diagnostic rendering.

use schema_loader::digits::{i64_to_string, usize_to_string};
use schema_loader::layout::{array_size, Layout};
use schema_loader::parse::tokens_to_schema_value;
use schema_loader::render::render_tokens;
use schema_loader::schema::SerializeContext;
use schema_loader::tokens::{string_to_tokens, Symbol, Token};
use schema_loader::value::SchemaValue;

fn parse_to_text(input: &str) -> Result<String, &'static str> {
    let tokens = string_to_tokens(input).map_err(|e| e.message)?;
    let value = tokens_to_schema_value(&tokens).map_err(|e| e.message)?;
    let mut context = SerializeContext::new();
    schema_loader::format::format_schema_value(&value, &mut context);
    Ok(context.string)
}

#[test]
fn tokenizes_every_token_kind() {
    let tokens = string_to_tokens("{ abc: 12, d: 3.5, e: \"hi\" } []:").unwrap();
    assert!(matches!(&tokens[0], Token::Punctuation(Symbol::OpenCurlyBrace)));
    assert!(matches!(&tokens[1], Token::Identifier(s) if s == "abc"));
    assert!(matches!(&tokens[2], Token::Punctuation(Symbol::Colon)));
    assert!(matches!(&tokens[3], Token::Integer(12)));
    assert!(matches!(&tokens[4], Token::Punctuation(Symbol::Comma)));
    assert!(matches!(&tokens[5], Token::Identifier(s) if s == "d"));
    assert!(matches!(&tokens[7], Token::Decimal(s) if s == "3.5"));
    assert!(matches!(&tokens[11], Token::Strg(s) if s == "hi"));
    assert!(matches!(&tokens[12], Token::Punctuation(Symbol::CloseCurlyBrace)));
    assert!(matches!(&tokens[13], Token::Punctuation(Symbol::OpenBrace)));
    assert!(matches!(&tokens[14], Token::Punctuation(Symbol::CloseBrace)));
    assert!(matches!(&tokens[15], Token::Punctuation(Symbol::Colon)));
    assert_eq!(tokens.len(), 16);
}

#[test]
fn identifiers_may_hold_digits_and_underscores() {
    let tokens = string_to_tokens("a1_b2").unwrap();
    assert!(matches!(&tokens[0], Token::Identifier(s) if s == "a1_b2"));
}

#[test]
fn a_second_period_is_a_tokenizing_error() {
    assert!(string_to_tokens("{ a: 1.2.3 }").is_err());
}

#[test]
fn an_unterminated_string_is_a_tokenizing_error() {
    assert!(string_to_tokens("{ a: \"oops }").is_err());
}

#[test]
fn an_unexpected_character_is_a_tokenizing_error() {
    assert!(string_to_tokens("{ a: 1; }").is_err());
}

#[test]
fn an_oversized_integer_is_a_tokenizing_error() {
    assert!(string_to_tokens("9223372036854775807").is_ok());
    assert!(string_to_tokens("9223372036854775808").is_err());
}

#[test]
fn symbols_map_from_their_characters() {
    assert!(matches!(Symbol::from_char('{'), Some(Symbol::OpenCurlyBrace)));
    assert!(matches!(Symbol::from_char('}'), Some(Symbol::CloseCurlyBrace)));
    assert!(matches!(Symbol::from_char('['), Some(Symbol::OpenBrace)));
    assert!(matches!(Symbol::from_char(']'), Some(Symbol::CloseBrace)));
    assert!(matches!(Symbol::from_char(','), Some(Symbol::Comma)));
    assert!(matches!(Symbol::from_char(':'), Some(Symbol::Colon)));
    assert!(Symbol::from_char('x').is_none());
}

#[test]
fn commas_between_members_are_optional() {
    let with_commas = parse_to_text("{ a: 1, b: 2 }").unwrap();
    let tolerant = parse_to_text("{ a: 1 b: 2, }").unwrap();
    assert_eq!(with_commas, tolerant);
    assert_eq!(with_commas, "{\n  a: 1\n  b: 2\n}");
}

#[test]
fn commas_between_array_members_are_optional() {
    let with_commas = parse_to_text("{ a: [1, 2] }").unwrap();
    let without = parse_to_text("{ a: [1 2] }").unwrap();
    assert_eq!(with_commas, without);
    assert_eq!(without, "{\n  a: [\n    1,\n    2\n  ]\n}");
}

#[test]
fn unicode_whitespace_is_skipped() {
    let spaced = parse_to_text("{\u{000C}a:\u{00A0}1\u{2003}}").unwrap();
    assert_eq!(spaced, "{\n  a: 1\n}");
}

#[test]
fn decimal_literals_pass_through_as_text() {
    let text = parse_to_text("{ a: 3.50, b: 0.5 }").unwrap();
    assert_eq!(text, "{\n  a: 3.50\n  b: 0.5\n}");
}

#[test]
fn duplicate_fields_overwrite() {
    let text = parse_to_text("{ a: 1, a: 2 }").unwrap();
    assert_eq!(text, "{\n  a: 2\n}");
}

#[test]
fn documents_must_open_with_a_brace() {
    assert!(parse_to_text("[1]").is_err());
    assert!(parse_to_text("").is_err());
}

#[test]
fn premature_end_of_input_is_a_parse_error() {
    assert!(parse_to_text("{ a: 1").is_err());
    assert!(parse_to_text("{ a: [1, 2").is_err());
    assert!(parse_to_text("{ a:").is_err());
}

#[test]
fn arrays_accept_no_trailing_comma() {
    // after a comma another member must follow, per the grammar
    assert!(parse_to_text("{ a: [1, 2,] }").is_err());
    assert_eq!(parse_to_text("{ a: [1, 2] }").unwrap(), "{\n  a: [\n    1,\n    2\n  ]\n}");
}

#[test]
fn booleans_and_bare_variants_are_told_apart() {
    let text = parse_to_text("{ a: true, b: false, c: Other }").unwrap();
    assert_eq!(text, "{\n  a: true\n  b: false\n  c: Other\n}");
}

#[test]
fn enum_payloads_wrap_one_value_in_braces() {
    let text = parse_to_text("{ a: Wrapped { 7 } }").unwrap();
    assert_eq!(text, "{\n  a: Wrapped {\n    7\n  }\n}");
    assert!(parse_to_text("{ a: Wrapped { 7 8 } }").is_err());
}

#[test]
fn layout_extension_aligns_offsets() {
    let base = Layout { size: 10, align: 4 };
    let (extended, offset) = base.extend(Layout { size: 7, align: 8 }).unwrap();
    assert_eq!(offset, 16);
    assert_eq!(extended, Layout { size: 23, align: 8 });
    let padded = extended.pad_to_align().unwrap();
    assert_eq!(padded, Layout { size: 24, align: 8 });
    assert_eq!(array_size(12, 3), Ok(36));
    assert!(Layout { size: usize::MAX, align: 8 }.extend(Layout { size: 8, align: 8 }).is_err());
    assert!(array_size(usize::MAX, 2).is_err());
}

#[test]
fn integers_render_in_decimal() {
    assert_eq!(i64_to_string(0), "0");
    assert_eq!(i64_to_string(907), "907");
    assert_eq!(i64_to_string(-35), "-35");
    assert_eq!(i64_to_string(i64::MIN), "-9223372036854775808");
    assert_eq!(usize_to_string(10), "10");
}

#[test]
fn token_dumps_highlight_the_failing_token() {
    let tokens = string_to_tokens("{ a: } }").unwrap();
    let dump = render_tokens(&tokens, 3);
    assert!(dump.starts_with("Parsing of schema failed:"));
    assert!(dump.contains(" ERROR<< } >> "));
    assert!(dump.contains(" a "));
}
