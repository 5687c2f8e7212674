use rulelex::lexer::{char_kind, iterate, tokenize, CharKind, LexError, MatchState, _lex};
use rulelex::lexing_rules::{rules, PatternFrag, Pred, Rule};
use rulelex::model::StateFlag;
use rulelex::token::TokenKind;

#[test]
fn classification_of_common_characters() {
    assert_eq!(char_kind('a'), CharKind::ChAlpha);
    assert_eq!(char_kind('Z'), CharKind::ChAlpha);
    assert_eq!(char_kind('é'), CharKind::ChAlpha);
    assert_eq!(char_kind('5'), CharKind::ChNum);
    assert_eq!(char_kind(' '), CharKind::ChWhite);
    assert_eq!(char_kind('\t'), CharKind::ChWhite);
    assert_eq!(char_kind('\n'), CharKind::ChWhite);
    assert_eq!(char_kind(';'), CharKind::ChSpecial);
    assert_eq!(char_kind('_'), CharKind::ChSpecial);
    assert_eq!(char_kind('='), CharKind::ChSpecial);
    assert_eq!(char_kind('\0'), CharKind::ChNull);
    assert_eq!(char_kind('\u{1}'), CharKind::ChOther);
    assert_eq!(char_kind('\u{1F600}'), CharKind::ChOther);
}

#[test]
fn automaton_accepts_then_finalizes_on_boundary() {
    let table = rules();
    // the identifier rule is the fourth in the table
    let ident = &table[3];
    let mut st = MatchState::new(TokenKind::TkIdent);
    assert_eq!(st.flag, StateFlag::StInit);
    iterate('a', &ident.frags, &mut st);
    assert_eq!(st.flag, StateFlag::StAccept);
    iterate('b', &ident.frags, &mut st);
    assert_eq!(st.flag, StateFlag::StAccept);
    iterate(';', &ident.frags, &mut st);
    assert_eq!(st.flag, StateFlag::StFinal);
}

#[test]
fn automaton_discards_on_mandatory_failure() {
    let table = rules();
    // the keyword rule is the third in the table
    let kw = &table[2];
    let mut st = MatchState::new(TokenKind::TkKeyword);
    iterate('l', &kw.frags, &mut st);
    assert_eq!(st.flag, StateFlag::StParsing);
    iterate('x', &kw.frags, &mut st);
    assert_eq!(st.flag, StateFlag::StDiscard);
}

#[test]
fn simple_scanner_splits_on_character_classes() {
    let toks = _lex("let x=10;").unwrap();
    let expected: Vec<(TokenKind, &str)> = vec![
        (TokenKind::TkIdent, "let"),
        (TokenKind::TkIdent, "x"),
        (TokenKind::TkOp, "="),
        (TokenKind::TkNum, "10"),
        (TokenKind::TkSep, ";"),
        (TokenKind::TkEOF, ""),
    ];
    assert_eq!(toks.len(), expected.len());
    for (t, (k, v)) in toks.iter().zip(expected.iter()) {
        assert_eq!(t.kind, *k);
        assert_eq!(t.val, *v);
    }
}

#[test]
fn simple_scanner_handles_all_operators() {
    let toks = _lex("a+b-c*d/e").unwrap();
    let kinds: Vec<TokenKind> = toks.iter().map(|t| t.kind).collect();
    assert_eq!(
        kinds,
        vec![
            TokenKind::TkIdent,
            TokenKind::TkOp,
            TokenKind::TkIdent,
            TokenKind::TkOp,
            TokenKind::TkIdent,
            TokenKind::TkOp,
            TokenKind::TkIdent,
            TokenKind::TkOp,
            TokenKind::TkIdent,
            TokenKind::TkEOF,
        ]
    );
}

#[test]
fn simple_scanner_rejects_unknown_special() {
    let err = _lex("a?b").unwrap_err();
    assert_eq!(err, LexError::UnknownChar { pos: 1 });
}

#[test]
fn simple_scanner_rejects_underscore() {
    // unlike the rule table, the hand-rolled scanner knows no '_'
    let err = _lex("_").unwrap_err();
    assert_eq!(err, LexError::UnknownChar { pos: 0 });
}

#[test]
fn custom_table_with_exact_quantity() {
    // one rule: exactly two 'a' characters, then any boundary character
    let frags = vec![
        PatternFrag { matcher: Pred::Lit('a'), quantity: 2 },
        PatternFrag { matcher: Pred::Any, quantity: 1 },
    ];
    let table = vec![Rule { kind: TokenKind::TkIdent, frags }];
    let toks = tokenize(&table, "aa").unwrap();
    assert_eq!(toks.len(), 2);
    assert_eq!(toks[0].kind, TokenKind::TkIdent);
    assert_eq!(toks[0].val, "aa");
    assert_eq!(toks[1].kind, TokenKind::TkEOF);
    // a single 'a' leaves the mandatory repetition unpaid
    let err = tokenize(&table, "a").unwrap_err();
    assert_eq!(err, LexError::UnterminatedLexeme { pos: 0 });
}

#[test]
fn custom_table_one_or_more_quantity() {
    // quantity zero: the fragment demands one match and then matches
    // unboundedly, so the rule claims a maximal run of 'b' characters
    let frags = vec![
        PatternFrag { matcher: Pred::Lit('b'), quantity: 0 },
        PatternFrag { matcher: Pred::Not(Box::new(Pred::Lit('b'))), quantity: 1 },
    ];
    let table = vec![Rule { kind: TokenKind::TkNum, frags }];
    let toks = tokenize(&table, "bbbb").unwrap();
    assert_eq!(toks.len(), 2);
    assert_eq!(toks[0].kind, TokenKind::TkNum);
    assert_eq!(toks[0].val, "bbbb");
    assert_eq!(toks[1].kind, TokenKind::TkEOF);
}

#[test]
fn simple_scanner_run_ends_at_end_of_input() {
    let toks = _lex("abc").unwrap();
    assert_eq!(toks.len(), 2);
    assert_eq!(toks[0].kind, TokenKind::TkIdent);
    assert_eq!(toks[0].val, "abc");
    assert_eq!(toks[1].kind, TokenKind::TkEOF);
}
