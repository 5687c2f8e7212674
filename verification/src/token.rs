use vstd::prelude::*;

verus! {

/// The kind of a token.  The set is closed and fixed by the rule table;
/// `TkEOF` marks the single terminal end-of-input token.
#[derive(Clone, Copy, Debug, PartialEq, Eq, Structural)]
pub enum TokenKind {
    TkWhite,
    TkIdent,
    TkNum,
    TkKeyword,
    TkOp,
    TkSep,
    TkEOF,
}

/// One token: its kind and the slice of input text that forms its lexeme.
/// The terminal end-of-input token has empty text.
#[derive(Clone, Debug)]
pub struct Token {
    pub kind: TokenKind,
    pub val: String,
}

} // verus!
