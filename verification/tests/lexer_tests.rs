use rulelex::lexer::{lex, LexError};
use rulelex::token::{Token, TokenKind};

fn assert_tokens(toks: &[Token], expected: &[(TokenKind, &str)]) {
    assert_eq!(toks.len(), expected.len(), "token count");
    for (t, (k, v)) in toks.iter().zip(expected.iter()) {
        assert_eq!(t.kind, *k);
        assert_eq!(t.val, *v);
    }
}

#[test]
fn empty_input_gives_one_eof_token() {
    let toks = lex("").unwrap();
    assert_tokens(&toks, &[(TokenKind::TkEOF, "")]);
}

#[test]
fn keyword_beats_identifier_on_let() {
    // tie-break: the keyword rule precedes the identifier rule
    let toks = lex("let").unwrap();
    assert_tokens(&toks, &[(TokenKind::TkKeyword, "let"), (TokenKind::TkEOF, "")]);
}

#[test]
fn keyword_then_separator() {
    let toks = lex("let;").unwrap();
    assert_tokens(
        &toks,
        &[(TokenKind::TkKeyword, "let"), (TokenKind::TkSep, ";"), (TokenKind::TkEOF, "")],
    );
}

#[test]
fn boundary_character_is_not_consumed() {
    // the ';' finalizes the identifier without entering its text, and
    // remains available to start the next lexeme
    let toks = lex("abc;").unwrap();
    assert_tokens(
        &toks,
        &[(TokenKind::TkIdent, "abc"), (TokenKind::TkSep, ";"), (TokenKind::TkEOF, "")],
    );
}

#[test]
fn identifier_run_is_consumed_greedily() {
    // the unbounded-optional fragment keeps matching to the end of the
    // run, not just one extra character
    let toks = lex("a_b1c;").unwrap();
    assert_tokens(
        &toks,
        &[(TokenKind::TkIdent, "a_b1c"), (TokenKind::TkSep, ";"), (TokenKind::TkEOF, "")],
    );
}

#[test]
fn keyword_boundary_fires_before_underscore() {
    // '_' is no keyword continuation, so the keyword rule finalizes
    // after `let` and the rest is a separate identifier
    let toks = lex("let_x;").unwrap();
    assert_tokens(
        &toks,
        &[
            (TokenKind::TkKeyword, "let"),
            (TokenKind::TkIdent, "_x"),
            (TokenKind::TkSep, ";"),
            (TokenKind::TkEOF, ""),
        ],
    );
}

#[test]
fn digits_finalize_at_end_of_input() {
    // the synthetic terminator serves as the boundary character, and
    // exactly one end-of-input token with empty text follows
    let toks = lex("42").unwrap();
    assert_tokens(&toks, &[(TokenKind::TkNum, "42"), (TokenKind::TkEOF, "")]);
}

#[test]
fn full_statement() {
    let toks = lex("let x=10;").unwrap();
    assert_tokens(
        &toks,
        &[
            (TokenKind::TkKeyword, "let"),
            (TokenKind::TkWhite, " "),
            (TokenKind::TkIdent, "x"),
            (TokenKind::TkOp, "="),
            (TokenKind::TkNum, "10"),
            (TokenKind::TkSep, ";"),
            (TokenKind::TkEOF, ""),
        ],
    );
}

#[test]
fn token_texts_cover_the_input() {
    let input = "let x=10;{y}";
    let toks = lex(input).unwrap();
    let rebuilt: String = toks.iter().map(|t| t.val.as_str()).collect::<Vec<_>>().join("");
    assert_eq!(rebuilt, input);
}

#[test]
fn whitespace_run_is_one_token() {
    let toks = lex("  \t x").unwrap();
    assert_tokens(
        &toks,
        &[(TokenKind::TkWhite, "  \t "), (TokenKind::TkIdent, "x"), (TokenKind::TkEOF, "")],
    );
}

#[test]
fn unicode_letters_form_identifiers() {
    let toks = lex("héllo;").unwrap();
    assert_tokens(
        &toks,
        &[(TokenKind::TkIdent, "héllo"), (TokenKind::TkSep, ";"), (TokenKind::TkEOF, "")],
    );
}

#[test]
fn unmatched_character_is_fatal() {
    // a lone character no rule matches: every automaton discards, the
    // buffer stays unclaimed, and the end-of-input check reports it
    let err = lex("?").unwrap_err();
    assert_eq!(err, LexError::UnterminatedLexeme { pos: 0 });
}

#[test]
fn fatal_position_names_the_unclaimed_lexeme() {
    // the '=' rule's boundary refuses '?', so the unclaimed lexeme is
    // "=?" and it begins at position 1
    let err = lex("x=?").unwrap_err();
    assert_eq!(err, LexError::UnterminatedLexeme { pos: 1 });
}

#[test]
fn tokenize_is_deterministic() {
    let a = lex("let x=10;").unwrap();
    let b = lex("let x=10;").unwrap();
    assert_eq!(a.len(), b.len());
    for (x, y) in a.iter().zip(b.iter()) {
        assert_eq!(x.kind, y.kind);
        assert_eq!(x.val, y.val);
    }
}

#[test]
fn operator_boundary_rejects_special() {
    // the '=' rule's boundary refuses a following special character, so
    // "==" is claimed by no rule and surfaces as a fatal condition
    let err = lex("==").unwrap_err();
    assert_eq!(err, LexError::UnterminatedLexeme { pos: 0 });
}

#[test]
fn assignment_of_identifier() {
    let toks = lex("x=y;").unwrap();
    assert_tokens(
        &toks,
        &[
            (TokenKind::TkIdent, "x"),
            (TokenKind::TkOp, "="),
            (TokenKind::TkIdent, "y"),
            (TokenKind::TkSep, ";"),
            (TokenKind::TkEOF, ""),
        ],
    );
}
