use unic_lexer::core_str::isEmpty;
use unic_lexer::cursor::{Cursor, EOF_CHAR};
use unic_lexer::literal_kind::{LiteralKind, NumericBase};
use unic_lexer::token_kind::TokenKind;
use unic_lexer::tokenize::{first_token, is_id_continue, is_id_start, is_whitespace, strip_shebang,
    tokenize};
use unic_lexer::unescape::Mode;

fn kinds_and_lens(input: &str) -> Vec<(TokenKind, usize)> {
    tokenize(input).iter().map(|t| (t.kind, t.len)).collect()
}

// ----------------------------------------------------------------------
// Cursor behaviour.
// ----------------------------------------------------------------------
#[test]
fn peek_empty_is_eof_char() {
    assert_eq!(EOF_CHAR, Cursor::new("").peek());
}

#[test]
fn peek_current_char() {
    assert_eq!('A', Cursor::new("A").peek());
}

#[test]
fn peek_nth_not_exist_gets_eof_char() {
    assert_eq!(EOF_CHAR, Cursor::new("A").peek_nth(1))
}

#[test]
fn peek_nth_char() {
    assert_eq!('B', Cursor::new("AB").peek_nth(1));
}

#[test]
fn bump_empty_get_none() {
    assert_eq!(None, Cursor::new("").bump());
}

#[test]
fn bump_get_current_char() {
    assert_eq!(Some('A'), Cursor::new("A").bump());
}

#[test]
fn fork_do_not_affect_orig_cursor() {
    let c = Cursor::new("ABC");
    let mut d = c.fork();
    assert_eq!(Some('A'), d.bump());
    assert_eq!('B', d.peek());
    assert_eq!('A', c.peek());
}

#[test]
fn empty_bump_to_none() {
    let mut c = unic_lexer::char_cursor::Cursor::new("");
    assert_eq!(None, c.bump());
}

// ----------------------------------------------------------------------
// The reduced scanner.
// ----------------------------------------------------------------------
#[test]
fn empty_input() {
    assert!(unic_lexer::simple::tokenize("").is_empty());
}

#[test]
fn whitespace() {
    let tokens = unic_lexer::simple::tokenize(" ");
    assert_eq!(tokens.len(), 1);
    assert_eq!(tokens[0].kind, unic_lexer::simple::TokenKind::Whitespace);
    assert_eq!(tokens[0].len, 1);
}

#[test]
fn identifier() {
    let tokens = unic_lexer::simple::tokenize("pub");
    assert_eq!(tokens.len(), 1);
    assert_eq!(tokens[0].kind, unic_lexer::simple::TokenKind::Identifier);
    assert_eq!(tokens[0].len, 3);
}

#[test]
fn empty_source() {
}

#[test]
fn cursor_progress() {
    let mut c = Cursor::new("a\u{1f980}b");
    assert_eq!(c.len_consumed(), 0);
    assert!(!c.is_eof());
    assert_eq!(c.prev(), EOF_CHAR);
    c.bump();
    assert_eq!(c.len_consumed(), 1);
    c.bump();
    // Consumed lengths are byte lengths.
    assert_eq!(c.len_consumed(), 5);
    assert_eq!(c.prev(), '\u{1f980}');
    c.bump();
    assert!(c.is_eof());
    assert_eq!(c.bump(), None);
}

#[test]
fn cursor_bump_n() {
    let mut c = Cursor::new("abc");
    assert_eq!(c.bump_n(0), None);
    assert_eq!(c.bump_n(2), Some('b'));
    assert_eq!(c.bump_n(5), None);
    assert_eq!(c.len_consumed(), 3);
}

#[test]
fn simple_cursor_behaviour() {
    let mut c = unic_lexer::simple::Cursor::new("ab");
    assert_eq!(c.first(), 'a');
    assert!(!c.is_eof());
    assert_eq!(c.bump(), Some('a'));
    assert_eq!(c.len_consumed(), 1);
    assert_eq!(c.bump(), Some('b'));
    assert_eq!(c.bump(), None);
    assert!(c.is_eof());
    assert_eq!(c.first(), unic_lexer::simple::EOF_CHAR);
}

#[test]
fn token_new_carries_fields() {
    let t = unic_lexer::token::Token::new(TokenKind::Semi, 1);
    assert_eq!(t.kind, TokenKind::Semi);
    assert_eq!(t.len, 1);
}

#[test]
fn mode_queries() {
    assert!(Mode::Char.in_single_quotes());
    assert!(Mode::Byte.in_single_quotes());
    assert!(!Mode::Str.in_single_quotes());
    assert!(Mode::Str.in_double_quotes());
    assert!(Mode::ByteStr.in_double_quotes());
    assert!(Mode::Byte.is_bytes());
    assert!(Mode::ByteStr.is_bytes());
    assert!(!Mode::Char.is_bytes());
    assert!(!Mode::Str.is_bytes());
}

// ----------------------------------------------------------------------
// String helpers.
// ----------------------------------------------------------------------
#[test]
fn empty_true() {
    assert_eq!(true, isEmpty(""));
}

#[test]
fn non_empty_false() {
    assert_eq!(false, isEmpty("a"));
}

// ----------------------------------------------------------------------
// The full scanner.
// ----------------------------------------------------------------------
#[test]
fn tokenize_expression() {
    assert_eq!(
        kinds_and_lens("a1 + 2"),
        vec![
            (TokenKind::Ident, 2),
            (TokenKind::Whitespace, 1),
            (TokenKind::Plus, 1),
            (TokenKind::Whitespace, 1),
            (
                TokenKind::Literal {
                    kind: LiteralKind::Int { base: NumericBase::Decimal, empty_int: false },
                    suffix_start: 1,
                },
                1,
            ),
        ]
    );
}

#[test]
fn tokenize_covers_multibyte() {
    // An unknown four-byte character still yields one token whose length is
    // its byte length.
    let tokens = tokenize("\u{1f980}");
    assert_eq!(tokens.len(), 1);
    assert_eq!(tokens[0].kind, TokenKind::Unknown);
    assert_eq!(tokens[0].len, 4);
    // Lengths cover the input exactly.
    let text = "r#\"abc\u{300}\"# 0x_1 'a b\"q\\\"e\"//c";
    let total: usize = tokenize(text).iter().map(|t| t.len).sum();
    assert_eq!(total, text.len());
}

#[test]
fn tokenize_comments() {
    assert_eq!(
        kinds_and_lens("/* /* */ */x"),
        vec![(TokenKind::BlockComment { terminated: true }, 11), (TokenKind::Ident, 1)]
    );
    assert_eq!(
        kinds_and_lens("/* /*"),
        vec![(TokenKind::BlockComment { terminated: false }, 5)]
    );
    assert_eq!(
        kinds_and_lens("// line\nx"),
        vec![
            (TokenKind::LineComment, 7),
            (TokenKind::Whitespace, 1),
            (TokenKind::Ident, 1),
        ]
    );
}

#[test]
fn tokenize_numbers() {
    assert_eq!(
        kinds_and_lens("0x"),
        vec![(
            TokenKind::Literal {
                kind: LiteralKind::Int { base: NumericBase::Hexadecimal, empty_int: true },
                suffix_start: 2,
            },
            2,
        )]
    );
    assert_eq!(
        kinds_and_lens("1e"),
        vec![(
            TokenKind::Literal {
                kind: LiteralKind::Float { base: NumericBase::Decimal, empty_exponent: true },
                suffix_start: 2,
            },
            2,
        )]
    );
    assert_eq!(
        kinds_and_lens("1.5e-3_f32"),
        vec![(
            TokenKind::Literal {
                kind: LiteralKind::Float { base: NumericBase::Decimal, empty_exponent: false },
                suffix_start: 7,
            },
            10,
        )]
    );
    // An integer followed by a range is not greedy about the dot.
    assert_eq!(
        kinds_and_lens("0..2"),
        vec![
            (
                TokenKind::Literal {
                    kind: LiteralKind::Int { base: NumericBase::Decimal, empty_int: false },
                    suffix_start: 1,
                },
                1,
            ),
            (TokenKind::Dot, 1),
            (TokenKind::Dot, 1),
            (
                TokenKind::Literal {
                    kind: LiteralKind::Int { base: NumericBase::Decimal, empty_int: false },
                    suffix_start: 1,
                },
                1,
            ),
        ]
    );
}

#[test]
fn tokenize_lifetime_or_char() {
    let toks = kinds_and_lens("'a b");
    assert_eq!(toks[0], (TokenKind::Lifetime { starts_with_number: false }, 2));
    let toks = kinds_and_lens("'a' b");
    assert_eq!(
        toks[0],
        (
            TokenKind::Literal { kind: LiteralKind::Char { terminated: true }, suffix_start: 3 },
            3,
        )
    );
}

#[test]
fn first_token_byte_literal() {
    let t = first_token("b'a' rest");
    assert_eq!(
        t.kind,
        TokenKind::Literal { kind: LiteralKind::Byte { terminated: true }, suffix_start: 4 }
    );
    assert_eq!(t.len, 4);
}

#[test]
fn tokenize_is_idempotent_per_token() {
    // Re-tokenizing the exact substring of an emitted token yields one
    // token of the same kind and full length.
    for text in ["12.foo()", "'a b", "r#\"x\"#suf more", "/* c */ d", "ab cd", "0x_1y"] {
        let mut pos: usize = 0;
        for t in tokenize(text) {
            let sub = &text[pos..pos + t.len];
            let again = tokenize(sub);
            assert_eq!(again.len(), 1, "token {:?} of {:?}", sub, text);
            assert_eq!(again[0].kind, t.kind);
            assert_eq!(again[0].len, t.len);
            pos += t.len;
        }
    }
}

#[test]
fn strip_shebang_cases() {
    assert_eq!(strip_shebang("#!/bin/sh\nrest"), Some(9));
    assert_eq!(strip_shebang("#![attr]"), None);
    assert_eq!(strip_shebang("#!x"), Some(3));
    assert_eq!(strip_shebang("fn main() {}"), None);
}

// ----------------------------------------------------------------------
// Classification predicates.
// ----------------------------------------------------------------------
#[test]
fn classify_characters() {
    assert!(is_whitespace(' '));
    assert!(is_whitespace('\u{2028}'));
    assert!(!is_whitespace('a'));
    // A Greek letter starts identifiers; a combining mark only continues
    // them.
    assert!(is_id_start('\u{3b1}'));
    assert!(!is_id_start('\u{300}'));
    assert!(is_id_continue('\u{300}'));
    assert!(is_id_continue('\u{3b1}'));
    assert!(!is_id_start('+'));
    assert!(!is_id_continue('+'));
    // The whole identifier token includes the combining mark.
    let toks = kinds_and_lens("a\u{300}");
    assert_eq!(toks, vec![(TokenKind::Ident, 3)]);
}
