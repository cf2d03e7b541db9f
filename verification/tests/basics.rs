use serotonin::config::Config;
use serotonin::diagnostics::SemanticWarning;
use serotonin::lexer::{unescape_outcome, ascii_only, lex_hex, lex_integer, no_newlines, trim, unescape, TokenizerError};
use serotonin::report::tokenizer_report;
use serotonin::span::Span;
use serotonin::stdlib::{
    get_best_factor, load_code_golfed_constants, load_compositions, load_simple_constants,
    number_dumb,
};
use serotonin::typ::{composition, StackEffect};

#[test]
fn test_span_merge() {
    let s1 = Span::new(0, 10, 0);
    let s2 = Span::new(20, 30, 0);
    let s3 = Span::new(0, 30, 0);

    assert_eq!(Span::merge(s1, s2), s3);
}

#[test]
fn span_accessors() {
    let s = Span::from_range(3..9, 2);
    assert_eq!(s.start(), 3);
    assert_eq!(s.end(), 9);
    assert_eq!(s.file_id(), 2);
    assert_eq!(s.range(), 3..9);
}

#[test]
fn config_default_is_all_off() {
    let c = Config::default();
    assert_eq!(c, Config::new(false, false, false));
    let d = Config::new(true, false, true);
    assert!(d.verbose() && !d.timings() && d.optimize());
}

#[test]
fn semantic_warning_text() {
    let w = SemanticWarning::SpecificQuotationsNotSupported(Span::new(1, 2, 0));
    assert_eq!(w.code(), "W203");
    assert_eq!(w.message(), "Specific quotation constraints are not yet supported");
    assert_eq!(w.span(), Span::new(1, 2, 0));
}

#[test]
fn number_dumb_pushes_n() {
    assert_eq!(number_dumb(0), ">");
    assert_eq!(number_dumb(3), ">+++");
    let t = load_simple_constants();
    assert_eq!(t.len(), 256);
    assert_eq!(t[5], ">+++++");
}

#[test]
fn best_factors() {
    assert_eq!(get_best_factor(0), (1, 0));
    assert_eq!(get_best_factor(1), (1, 1));
    assert_eq!(get_best_factor(2), (1, 2));
    assert_eq!(get_best_factor(12), (3, 4));
    assert_eq!(get_best_factor(36), (6, 6));
    assert_eq!(get_best_factor(13), (1, 13));
}

#[test]
fn golfed_constants_table() {
    let t = load_code_golfed_constants();
    assert_eq!(t.len(), 257);
    assert_eq!(t[0], ">");
    assert_eq!(t[256], ">");
    assert_eq!(t[1], ">+");
    assert_eq!(t[255], ">-");
    assert_eq!(t[36], ">>++++++[<++++++>-]<");
    for i in 0..257 {
        assert!(t[i].starts_with('>'));
    }
    for i in 1..256 {
        assert!(t[i].len() <= t[i - 1].len() + 1);
        assert!(t[i].len() <= t[i + 1].len() + 1);
    }
}

#[test]
fn compositions_table() {
    let c = load_compositions();
    assert_eq!(c, vec![("while", (2, "{0}[{1}{0}]<"))]);
}

#[test]
fn stack_effect_composition() {
    // dup (1 -> 2) then drop (1 -> 0) is 1 -> 1
    let r = composition(&StackEffect::new(1, 2), &StackEffect::new(1, 0));
    assert_eq!((r.pops(), r.pushes()), (1, 1));
    // read (0 -> 1) then + (2 -> 1) is 1 -> 1
    let r = composition(&StackEffect::new(0, 1), &StackEffect::new(2, 1));
    assert_eq!((r.pops(), r.pushes()), (1, 1));
}

fn sp(len: usize) -> Span {
    Span::new(10, 10 + len, 0)
}

#[test]
fn lex_integer_values() {
    assert_eq!(lex_integer("42", sp(2)), Ok(42));
    assert_eq!(lex_integer("+255", sp(4)), Ok(255));
    assert_eq!(lex_integer("0", sp(1)), Ok(0));
    assert_eq!(lex_integer("", sp(0)), Err(TokenizerError::ICEEmptyStringAsInteger(sp(0))));
    assert_eq!(lex_integer("300", sp(3)), Err(TokenizerError::LargeInteger(sp(3), 44)));
    assert_eq!(lex_integer("256", sp(3)), Err(TokenizerError::LargeInteger(sp(3), 0)));
    assert_eq!(lex_integer("0255", sp(4)), Ok(255));
    assert_eq!(lex_integer("-300", sp(4)), Err(TokenizerError::LargeInteger(Span::new(12, 14, 0), 44)));
    assert_eq!(lex_integer("1000", sp(4)), Err(TokenizerError::LargeInteger(sp(4), 232)));
    assert_eq!(lex_integer("-10", sp(3)), Err(TokenizerError::NegativeInteger(sp(3), 246)));
    assert_eq!(lex_integer("-0", sp(2)), Err(TokenizerError::NegativeInteger(sp(2), 0)));
    assert_eq!(
        lex_integer("-1000", sp(5)),
        Err(TokenizerError::LargeInteger(Span::new(12, 15, 0), 232))
    );
    assert_eq!(lex_integer("-", sp(1)), Err(TokenizerError::ICEEmptyStringAsInteger(Span::new(11, 11, 0))));
}

#[test]
fn lex_hex_values() {
    assert_eq!(lex_hex("0x10", sp(4)), Ok(16));
    assert_eq!(lex_hex("0XfF", sp(4)), Ok(255));
    assert_eq!(lex_hex("+0x0a", sp(5)), Ok(10));
    assert_eq!(lex_hex("0x100", sp(5)), Err(TokenizerError::LargeHex(sp(5), 0)));
    assert_eq!(lex_hex("0x1ff", sp(5)), Err(TokenizerError::LargeHex(sp(5), 255)));
    assert_eq!(lex_hex("0x00ff", sp(6)), Ok(255));
    assert_eq!(lex_hex("-0x10", sp(5)), Err(TokenizerError::NegativeHex(sp(5), 240)));
    assert_eq!(lex_hex("0x", sp(2)), Err(TokenizerError::ICEValidHexFailed(sp(2))));
    assert_eq!(
        lex_hex("-0x123", sp(6)),
        Err(TokenizerError::LargeHex(Span::new(11, 16, 0), 0x23))
    );
}

#[test]
fn string_checks() {
    assert_eq!(trim("'abc'", sp(5)), Ok("abc"));
    assert_eq!(trim("'", sp(1)), Err(TokenizerError::ICEStringCouldNotBeTrimmed(sp(1))));
    assert_eq!(no_newlines("abc", sp(3)), Ok(()));
    assert_eq!(
        no_newlines("ab\ncd\n", sp(6)),
        Err(TokenizerError::NewlineInString(sp(6), Span::new(12, 13, 0)))
    );
    assert_eq!(ascii_only("Hello", sp(5)), Ok(()));
    assert_eq!(
        ascii_only("Héllo", sp(6)),
        Err(TokenizerError::NonAsciiString(sp(6), Span::new(11, 11, 0)))
    );
    assert_eq!(unescape("\"a\\tb\"", sp(6)), Ok(String::from("a\tb")));
    assert!(matches!(
        unescape("\"a\\qb\"", sp(6)),
        Err(TokenizerError::InvalidEscapeSequence(s, _)) if s == sp(6)
    ));
}

#[test]
fn tokenizer_error_texts() {
    let e = TokenizerError::LargeHex(sp(1), 3);
    assert_eq!(e.code(), "E006");
    assert_eq!(e.message(), "Invalid byte: Number is too large to store in a byte");
    assert_eq!(TokenizerError::UnknownToken(sp(1)).code(), "E012");
}

use serotonin::compiler::program::strip_outer_moves;
use serotonin::lexer::{token_data, TokenData, TokenKind};
use serotonin::ut::{AstNode, Ty};

#[test]
fn token_data_of_tokens() {
    assert_eq!(token_data(TokenKind::Integer, "42", sp(2)), Ok(TokenData::Integer(42)));
    assert_eq!(
        token_data(TokenKind::Integer, "-10", sp(3)),
        Err(TokenizerError::NegativeInteger(sp(3), 246))
    );
    assert_eq!(token_data(TokenKind::HexInteger, "0x1f", sp(4)), Ok(TokenData::Integer(31)));
    assert_eq!(
        token_data(TokenKind::String, "\"a\\tb\"", sp(6)),
        Ok(TokenData::String("a\tb".to_string()))
    );
    assert_eq!(token_data(TokenKind::Brainfuck, "`+-`", sp(4)), Ok(TokenData::String("+-".to_string())));
    assert_eq!(
        token_data(TokenKind::MacroInput, "{a -- a a}", sp(10)),
        Ok(TokenData::String("a -- a a".to_string()))
    );
    assert_eq!(token_data(TokenKind::Identifier, "dup", sp(3)), Ok(TokenData::String("dup".to_string())));
    assert_eq!(token_data(TokenKind::Semicolon, ";", sp(1)), Ok(TokenData::Empty));
    assert_eq!(
        token_data(TokenKind::Integer, "abc", sp(3)),
        Err(TokenizerError::UnknownToken(sp(3)))
    );
    assert!(TokenKind::Integer.is_atomic() && !TokenKind::Semicolon.is_atomic());
    assert!(TokenKind::Comment.is_trivia() && !TokenKind::Dot.is_trivia());
    let d = TokenData::Integer(7);
    assert!(d.is_integer() && !d.is_string() && !d.is_none());
    assert_eq!(d.try_unwrap_integer(), Some(7));
    assert_eq!(d.unwrap_integer(), 7);
    assert_eq!(TokenData::String("x".into()).unwrap_string(), "x");
}

#[test]
fn outer_moves() {
    assert_eq!(strip_outer_moves(">+++<"), "+++");
    assert_eq!(strip_outer_moves("><"), "");
    assert_eq!(strip_outer_moves(">+++"), ">+++");
    assert_eq!(strip_outer_moves(">"), ">");
}

#[test]
fn ast_node_names() {
    let d = AstNode::Definition("dup".into(), Ty { pops: 1, pushes: 2 }, vec![]);
    assert_eq!(d.get_name(), "dup");
    assert_eq!(AstNode::Atomic("x".into()).get_name(), "x");
    assert_eq!(AstNode::Compound("m".into(), vec![], vec![]).get_name(), "m");
}

#[test]
fn unescape_outcome_maps_results() {
    let span = Span::new(2, 5, 0);
    assert_eq!(unescape_outcome(Ok(String::from("x")), span), Ok(String::from("x")));
    let refused = snailquote::unescape("\"\\q\"").unwrap_err();
    assert!(matches!(
        unescape_outcome(Err(refused), span),
        Err(TokenizerError::InvalidEscapeSequence(s, _)) if s == span
    ));
}

#[test]
fn large_integer_suggests_remainder() {
    let span = Span::new(8, 11, 0);
    assert_eq!(lex_integer("300", span), Err(TokenizerError::LargeInteger(span, 44)));
}

/// The length of the starting code of `j`, as the table starts.
fn start_len(j: usize) -> usize {
    if j == 0 || j == 256 {
        return 0;
    }
    let (a, b) = get_best_factor(j as u16);
    if a == 1 {
        1 + j
    } else {
        (1 + a + 2 + b + 4) as usize
    }
}

#[test]
fn golfed_constants_are_shortest() {
    let t = load_code_golfed_constants();
    for i in 0..257usize {
        let best = (0..257usize)
            .map(|j| start_len(j) + if i >= j { i - j } else { j - i })
            .min()
            .unwrap();
        assert_eq!(t[i].len(), 1 + best, "entry {}", i);
    }
    assert_eq!(t[100], ">>++++++++++[<++++++++++>-]<");
    assert_eq!(t[2], ">++");
}

#[test]
fn tokenizer_reports() {
    let s = Span::new(3, 7, 0);
    let large = tokenizer_report(&TokenizerError::LargeHex(s, 44));
    assert_eq!(large.code, "E006");
    assert_eq!(large.message, "Invalid byte: Number is too large to store in a byte");
    assert!(large.notes.is_empty());
    assert_eq!(large.labels.len(), 1);
    assert!(large.labels[0].primary);
    assert_eq!(large.labels[0].span, s);
    assert_eq!(large.labels[0].text, "Consider using the modulo operator instead: ");
    assert_eq!(large.labels[0].highlight, Some("44".to_string()));

    let negative = tokenizer_report(&TokenizerError::NegativeInteger(s, 255));
    assert_eq!(negative.labels[0].highlight, Some("255".to_string()));

    let ice = tokenizer_report(&TokenizerError::ICEStringCouldNotBeTrimmed(s));
    assert_eq!(ice.code, "I008");
    assert_eq!(
        ice.notes,
        vec!["This is a compiler error and should not have happened. Please report this bug.".to_string()]
    );
    assert_eq!(ice.labels[0].text, "Failed to trim a String type");
    assert_eq!(ice.labels[0].highlight, None);

    let newline = Span::new(5, 6, 0);
    let nl = tokenizer_report(&TokenizerError::NewlineInString(s, newline));
    assert_eq!(nl.labels.len(), 2);
    assert_eq!(nl.labels[0].highlight, Some("\\n".to_string()));
    assert!(!nl.labels[1].primary);
    assert_eq!(nl.labels[1].span, newline);
    assert_eq!(nl.labels[1].text, "Newline found here");

    let escape = unescape("\"\\q\"", s).unwrap_err();
    let r = tokenizer_report(&escape);
    assert_eq!(r.code, "E009");
    assert_eq!(r.labels.len(), 1);
    assert!(!r.labels[0].text.is_empty());
}

use serotonin::tokens::{next_token, tokenize};

#[test]
fn token_grammar() {
    assert_eq!(next_token("IMPORT std;", 0), (TokenKind::ImportKW, 6));
    assert_eq!(next_token("IMPORTx", 0), (TokenKind::Identifier, 7));
    assert_eq!(next_token("==? a", 0), (TokenKind::Generation, 3));
    assert_eq!(next_token("== a", 0), (TokenKind::Substitution, 2));
    assert_eq!(next_token("==!", 0), (TokenKind::Execution, 3));
    assert_eq!(next_token("===", 0), (TokenKind::Identifier, 3));
    assert_eq!(next_token("+5 ", 0), (TokenKind::Integer, 2));
    assert_eq!(next_token("+5a", 0), (TokenKind::Identifier, 3));
    assert_eq!(next_token("0x1f;", 0), (TokenKind::HexInteger, 4));
    assert_eq!(next_token("0x", 0), (TokenKind::Integer, 1));
    assert_eq!(next_token("\"a b\"c", 0), (TokenKind::String, 5));
    assert_eq!(next_token("\"ab\"c", 0), (TokenKind::Identifier, 5));
    assert_eq!(next_token("'x'", 0), (TokenKind::RawString, 3));
    assert_eq!(next_token("`+-`", 0), (TokenKind::Brainfuck, 4));
    assert_eq!(next_token("{a -- a a}", 0), (TokenKind::MacroInput, 10));
    assert_eq!(next_token("{a", 0), (TokenKind::Error, 1));
    assert_eq!(next_token("}", 0), (TokenKind::Error, 1));
    assert_eq!(next_token("a b", 0), (TokenKind::NamedByte, 1));
    assert_eq!(next_token("ab", 0), (TokenKind::Identifier, 2));
    assert_eq!(next_token("A", 0), (TokenKind::NamedQuotation, 1));
    assert_eq!(next_token(". x", 0), (TokenKind::Dot, 1));
    assert_eq!(next_token("# c\nx", 0), (TokenKind::Comment, 3));
    assert_eq!(next_token("  \n\tx", 0), (TokenKind::Whitespace, 4));
    assert_eq!(next_token("a@?()[];", 1), (TokenKind::UnnamedByte, 2));
    assert_eq!(next_token("a@?()[];", 2), (TokenKind::UnnamedQuotation, 3));
    assert_eq!(next_token("a@?()[];", 7), (TokenKind::Semicolon, 8));
}

#[test]
fn tokenize_program() {
    let (tokens, errors) = tokenize("main == 3;", 1);
    assert!(errors.is_empty());
    let kinds: Vec<TokenKind> = tokens.iter().map(|t| t.0).collect();
    assert_eq!(
        kinds,
        vec![
            TokenKind::Identifier,
            TokenKind::Whitespace,
            TokenKind::Substitution,
            TokenKind::Whitespace,
            TokenKind::Integer,
            TokenKind::Semicolon
        ]
    );
    assert_eq!(tokens[0].1, Span::new(0, 4, 1));
    assert_eq!(tokens[0].2, TokenData::String("main".to_string()));
    assert_eq!(tokens[4].1, Span::new(8, 9, 1));
    assert_eq!(tokens[4].2, TokenData::Integer(3));

    // spans are byte offsets
    let (tokens, _) = tokenize("é 1", 0);
    assert_eq!(tokens[0].1, Span::new(0, 2, 0));
    assert_eq!(tokens[2].1, Span::new(3, 4, 0));

    // refused texts are reported in order, the others kept
    let (tokens, errors) = tokenize("\"a\nb\" 300 x", 0);
    assert_eq!(errors.len(), 2);
    assert_eq!(
        errors[0],
        TokenizerError::NewlineInString(Span::new(0, 5, 0), Span::new(2, 3, 0))
    );
    assert_eq!(errors[1], TokenizerError::LargeInteger(Span::new(6, 9, 0), 44));
    assert_eq!(tokens.len(), 3);
    assert_eq!(tokens[2].2, TokenData::String("x".to_string()));
}
