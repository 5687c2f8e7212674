//! Character classification and the lexer driver.

use vstd::prelude::*;
use vstd::string::StrSliceExecFns;

use crate::lexing_rules::{frags_model, table_model, PatternFrag, Rule};
use crate::model::{
    first_fire, init_state, lex_from, prepend_result, rule_fires, run, scan, state_wf, step,
    table_wf, tail_requires_match, token_model, tokens_model, eof_token, lemma_no_fire_on_empty,
    lemma_run_wf, AutoState, ScanOutcome, StateFlag, TokenModel,
};
use crate::token::{Token, TokenKind};

verus! {

/// The coarse class of a single character.  `ChNull` is the class of the
/// synthetic terminator appended to the input so that every rule's
/// trailing boundary check can fire at true end of input.
#[derive(Clone, Copy, Debug, PartialEq, Eq, Structural)]
pub enum CharKind {
    ChWhite,
    ChAlpha,
    ChNum,
    ChSpecial,
    ChOther,
    ChNull,
}

/// Whether a character beyond the ASCII range has the Unicode
/// `White_Space` property; the name stands for what
/// `char::is_whitespace` returns there.
pub uninterp spec fn nonascii_whitespace_char(c: char) -> bool;

/// Whether a character beyond the ASCII range has the Unicode
/// `Alphabetic` property; the name stands for what `char::is_alphabetic`
/// returns there.
pub uninterp spec fn nonascii_alphabetic_char(c: char) -> bool;

/// Whether a character has the Unicode `White_Space` property.  On the
/// ASCII range that property holds exactly of tab through carriage
/// return (9 to 13) and space (32).
pub open spec fn whitespace_char(c: char) -> bool {
    if (c as u32) < 128 {
        9 <= c as u32 <= 13 || c as u32 == 32
    } else {
        nonascii_whitespace_char(c)
    }
}

/// Whether a character has the Unicode `Alphabetic` property.  On the
/// ASCII range that property holds exactly of the letters `A` to `Z` and
/// `a` to `z`.
pub open spec fn alphabetic_char(c: char) -> bool {
    if (c as u32) < 128 {
        65 <= c as u32 <= 90 || 97 <= c as u32 <= 122
    } else {
        nonascii_alphabetic_char(c)
    }
}

/// Relies on `char::is_whitespace`: whether a character has the Unicode
/// `White_Space` property depends on the character alone, and on the
/// ASCII range that property holds exactly of tab through carriage
/// return and space.
pub assume_specification[ char::is_whitespace ](c: char) -> (r: bool)
    ensures
        r == whitespace_char(c),
        c as u32 >= 128 ==> r == nonascii_whitespace_char(c),
;

/// Relies on `char::is_alphabetic`: whether a character has the Unicode
/// `Alphabetic` property depends on the character alone, and on the
/// ASCII range that property holds exactly of the letters `A` to `Z`
/// and `a` to `z`.
pub assume_specification[ char::is_alphabetic ](c: char) -> (r: bool)
    ensures
        r == alphabetic_char(c),
        c as u32 >= 128 ==> r == nonascii_alphabetic_char(c),
;

/// A decimal digit, `'0'` through `'9'`.
pub open spec fn digit_char(c: char) -> bool {
    48 <= c as u32 <= 57
}

/// The punctuation characters the rule table may refer to: the four ASCII
/// runs `!` through `/`, `:` through `@`, `[` through backtick, and `{`
/// through `~`.
pub open spec fn special_char(c: char) -> bool {
    ||| 33 <= c as u32 <= 47
    ||| 58 <= c as u32 <= 64
    ||| 91 <= c as u32 <= 96
    ||| 123 <= c as u32 <= 126
}

/// The class of a character.  Classification is total: every character
/// falls into exactly one class, the earlier tests taking precedence.
pub open spec fn spec_char_kind(c: char) -> CharKind {
    if whitespace_char(c) {
        CharKind::ChWhite
    } else if alphabetic_char(c) {
        CharKind::ChAlpha
    } else if digit_char(c) {
        CharKind::ChNum
    } else if special_char(c) {
        CharKind::ChSpecial
    } else if c == '\0' {
        CharKind::ChNull
    } else {
        CharKind::ChOther
    }
}

/// Why tokenization failed.
#[derive(Clone, Copy, Debug, PartialEq, Eq, Structural)]
pub enum LexError {
    /// Input ended mid-lexeme with no rule able to finalize; `pos` is the
    /// position at which the unclaimed lexeme begins.
    UnterminatedLexeme { pos: usize },
    /// A character that no rule can ever match, at position `pos`.
    UnknownChar { pos: usize },
}

/// Maps a character to its coarse class.
pub fn char_kind(c: char) -> (k: CharKind)
    ensures
        k == spec_char_kind(c),
{
    if c.is_whitespace() {
        CharKind::ChWhite
    } else if c.is_alphabetic() {
        CharKind::ChAlpha
    } else {
        let u = c as u32;
        if 48 <= u && u <= 57 {
            CharKind::ChNum
        } else if (33 <= u && u <= 47) || (58 <= u && u <= 64) || (91 <= u && u <= 96) || (123 <= u
            && u <= 126) {
            CharKind::ChSpecial
        } else if c == '\0' {
            CharKind::ChNull
        } else {
            CharKind::ChOther
        }
    }
}

/// The runtime automaton instance for one rule: current fragment index,
/// repetitions remaining for the fragment in progress (`None` while the
/// fragment has not yet consumed a character), and the status flag.  One
/// instance exists per rule per lexeme being scanned.
#[derive(Clone, Copy, Debug)]
pub struct MatchState {
    pub token_kind: TokenKind,
    pub frag: usize,
    pub quant: Option<i8>,
    pub flag: StateFlag,
}

impl MatchState {
    /// The state as mathematics.
    pub open spec fn model(self) -> AutoState {
        AutoState {
            frag: self.frag as int,
            quant: match self.quant {
                Some(q) => Some(q as int),
                None => None,
            },
            flag: self.flag,
        }
    }

    /// A fresh automaton, ready to scan a new lexeme for one rule.
    pub fn new(token_kind: TokenKind) -> (s: MatchState)
        ensures
            s.token_kind == token_kind,
            s.model() == init_state(),
    {
        MatchState { token_kind, frag: 0, quant: None, flag: StateFlag::StInit }
    }
}

/// Whether a fragment at or after `from`, the trailing boundary fragment
/// excluded, still demands a match.
fn tail_requires(frags: &Vec<PatternFrag>, from: usize) -> (r: bool)
    requires
        frags@.len() >= 1,
    ensures
        r == tail_requires_match(frags_model(frags@), from as int),
{
    let end = frags.len() - 1;
    let mut j = from;
    while j < end
        invariant
            end == frags@.len() - 1,
            from <= j,
            forall|t: int|
                from <= t < j ==> (#[trigger] frags_model(frags@)[t].quantity) < 0,
        decreases end - j,
    {
        if frags[j].quantity >= 0 {
            proof {
                assert(frags_model(frags@)[j as int].quantity >= 0);
            }
            return true;
        }
        j += 1;
    }
    false
}

/// The computation behind `iterate`, on a state passed by value: the loop
/// retrying the same character across skipped unbounded-optional
/// fragments is bounded by the pattern length.
fn step_state(c: char, frags: &Vec<PatternFrag>, st0: MatchState) -> (st: MatchState)
    requires
        st0.flag != StateFlag::StDiscard,
        st0.flag != StateFlag::StFail,
        st0.flag != StateFlag::StFinal,
        (st0.frag as int) < frags@.len(),
    ensures
        st.token_kind == st0.token_kind,
        st.model() == step(frags_model(frags@), st0.model(), c),
{
    let ghost fm = frags_model(frags@);
    let ghost orig = st0.model();
    let mut state = st0;
    loop
        invariant
            fm == frags_model(frags@),
            orig == st0.model(),
            state.token_kind == st0.token_kind,
            state.flag == st0.flag,
            (state.frag as int) < frags@.len(),
            step(fm, state.model(), c) == step(fm, orig, c),
        decreases frags@.len() - state.frag,
    {
        let flen = frags.len();
        let q: i8 = match state.quant {
            Some(v) => v,
            None => frags[state.frag].quantity,
        };
        let matched = frags[state.frag].matcher.eval(c);
        proof {
            assert(fm[state.frag as int] == frags@[state.frag as int].model());
            assert((fm[state.frag as int].ok)(c) == frags@[state.frag as int].matcher.accepts(c));
            assert(fm[state.frag as int].quantity == frags@[state.frag as int].quantity as int);
        }
        if matched {
            if q > 1 {
                state.quant = Some(q - 1);
                state.flag = StateFlag::StParsing;
                return state;
            } else if q == 1 {
                state.frag = state.frag + 1;
                state.quant = None;
                if state.frag == flen {
                    state.flag = StateFlag::StFinal;
                } else {
                    // the newly entered fragment has not consumed a
                    // character yet, so it counts itself
                    let req = tail_requires(frags, state.frag);
                    state.flag = if req {
                        StateFlag::StParsing
                    } else {
                        StateFlag::StAccept
                    };
                }
                return state;
            } else {
                let nq: i8 = if q == 0 {
                    -1
                } else {
                    q
                };
                state.quant = Some(nq);
                let req = tail_requires(frags, state.frag + 1);
                state.flag = if req {
                    StateFlag::StParsing
                } else {
                    StateFlag::StAccept
                };
                return state;
            }
        } else {
            state.frag = state.frag + 1;
            state.quant = None;
            if q >= 0 {
                state.flag = StateFlag::StDiscard;
                return state;
            } else if state.frag < flen {
                // retry the same character against the next fragment
            } else {
                state.flag = StateFlag::StDiscard;
                return state;
            }
        }
    }
}

/// One automaton step: feeds the peeked character `c` to `state`, whose
/// rule has the pattern `frags`, mutating `state` in place.  The caller
/// must filter out automata that are already discarded or final.
pub fn iterate(c: char, frags: &Vec<PatternFrag>, state: &mut MatchState)
    requires
        old(state).flag != StateFlag::StDiscard,
        old(state).flag != StateFlag::StFail,
        old(state).flag != StateFlag::StFinal,
        (old(state).frag as int) < frags@.len(),
    ensures
        final(state).token_kind == old(state).token_kind,
        final(state).model() == step(frags_model(frags@), old(state).model(), c),
{
    *state = step_state(c, frags, *state);
}

/// One pass of the driver: offers the peeked character `c` to every live
/// automaton in table order and reports the first to reach `StFinal`,
/// stopping the pass there.  `consumed` is the lexeme consumed so far.
fn advance_all(
    table: &Vec<Rule>,
    states: &mut Vec<MatchState>,
    c: char,
    consumed: Ghost<Seq<char>>,
) -> (w: Option<usize>)
    requires
        table_wf(table_model(table@)),
        old(states)@.len() == table@.len(),
        forall|j: int|
            0 <= j < table@.len() ==> {
                &&& (#[trigger] old(states)@[j]).model() == run(
                    table_model(table@)[j].frags,
                    consumed@,
                )
                &&& old(states)@[j].token_kind == table_model(table@)[j].kind
                &&& run(table_model(table@)[j].frags, consumed@).flag != StateFlag::StFinal
            },
    ensures
        final(states)@.len() == table@.len(),
        forall|j: int|
            0 <= j < table@.len() ==> (#[trigger] final(states)@[j]).token_kind == table_model(
                table@,
            )[j].kind,
        match w {
            None => {
                &&& first_fire(table_model(table@), consumed@, c, 0) == table@.len()
                &&& forall|j: int|
                    0 <= j < table@.len() ==> {
                        &&& (#[trigger] final(states)@[j]).model() == run(
                            table_model(table@)[j].frags,
                            consumed@.push(c),
                        )
                        &&& run(table_model(table@)[j].frags, consumed@.push(c)).flag
                            != StateFlag::StFinal
                    }
            },
            Some(wi) => {
                &&& wi < table@.len()
                &&& first_fire(table_model(table@), consumed@, c, 0) == wi as int
            },
        },
{
    let ghost tm = table_model(table@);
    let mut r: usize = 0;
    while r < states.len()
        invariant
            tm == table_model(table@),
            table_wf(tm),
            tm.len() == table@.len(),
            states@.len() == table@.len(),
            r <= states@.len(),
            forall|j: int|
                0 <= j < table@.len() ==> (#[trigger] states@[j]).token_kind == tm[j].kind,
            forall|j: int|
                r <= j < table@.len() ==> {
                    &&& (#[trigger] states@[j]).model() == run(tm[j].frags, consumed@)
                    &&& run(tm[j].frags, consumed@).flag != StateFlag::StFinal
                },
            forall|j: int|
                0 <= j < r ==> {
                    &&& (#[trigger] states@[j]).model() == run(tm[j].frags, consumed@.push(c))
                    &&& run(tm[j].frags, consumed@.push(c)).flag != StateFlag::StFinal
                },
            first_fire(tm, consumed@, c, 0) == first_fire(tm, consumed@, c, r as int),
        decreases states@.len() - r,
    {
        proof {
            assert(tm[r as int] == table@[r as int].model());
            assert(tm[r as int].frags =~= frags_model(table@[r as int].frags@));
            assert(tm[r as int].frags.len() >= 1);
            lemma_run_wf(tm[r as int].frags, consumed@);
            assert(consumed@.push(c).drop_last() =~= consumed@);
            assert(consumed@.push(c).last() == c);
        }
        let discarded = states[r].flag == StateFlag::StDiscard;
        if !discarded {
            let mut st = states[r];
            proof {
                assert(state_wf(st.model(), tm[r as int].frags.len() as int));
                assert((st.frag as int) < table@[r as int].frags@.len());
            }
            iterate(c, &table[r].frags, &mut st);
            states[r] = st;
            proof {
                assert(st.model() == step(tm[r as int].frags, run(tm[r as int].frags, consumed@), c));
                assert(run(tm[r as int].frags, consumed@.push(c)) == st.model());
            }
            if st.flag == StateFlag::StFinal {
                proof {
                    assert(rule_fires(tm[r as int], consumed@, c));
                    assert(first_fire(tm, consumed@, c, r as int) == r as int);
                }
                return Some(r);
            }
            proof {
                assert(!rule_fires(tm[r as int], consumed@, c));
                assert(first_fire(tm, consumed@, c, r as int) == first_fire(
                    tm,
                    consumed@,
                    c,
                    r as int + 1,
                ));
            }
        } else {
            proof {
                assert(run(tm[r as int].frags, consumed@).flag == StateFlag::StDiscard);
                assert(run(tm[r as int].frags, consumed@.push(c)) == run(tm[r as int].frags, consumed@));
                assert(!rule_fires(tm[r as int], consumed@, c));
                assert(first_fire(tm, consumed@, c, r as int) == first_fire(
                    tm,
                    consumed@,
                    c,
                    r as int + 1,
                ));
            }
        }
        r += 1;
    }
    None
}

/// How scanning one lexeme ended, on the executable side.
enum ScanEnd {
    /// Rule `rule` won after the lexeme consumed `len` characters.
    Win { rule: usize, len: usize },
    /// Input ran out with nothing pending: the end-of-input token is owed.
    End,
    /// Input ran out mid-lexeme with no rule able to finalize.
    Stuck,
}

/// Scans one lexeme of `text` starting at `start`: one fresh automaton
/// per rule, fed the same peeked character in table order, until a rule
/// fires or the input (with its synthetic terminator) runs out.
fn scan_lexeme(table: &Vec<Rule>, text: &str, n: usize, start: usize) -> (o: ScanEnd)
    requires
        table_wf(table_model(table@)),
        n == text@.len(),
        n < usize::MAX,
        start <= n,
    ensures
        ({
            let sc = scan(table_model(table@), text@.push('\0'), start as int, 0);
            match o {
                ScanEnd::Win { rule, len } => {
                    &&& sc == (ScanOutcome::Lexeme { rule: rule as int, len: len as int })
                    &&& rule < table@.len()
                    &&& 1 <= len
                    &&& start + len <= n
                },
                ScanEnd::End => sc == ScanOutcome::Eof,
                ScanEnd::Stuck => sc == ScanOutcome::Fatal,
            }
        }),
{
    let ghost tm = table_model(table@);
    let ghost input1 = text@.push('\0');
    let mut states: Vec<MatchState> = Vec::new();
    let mut ri: usize = 0;
    while ri < table.len()
        invariant
            tm == table_model(table@),
            ri <= table@.len(),
            states@.len() == ri,
            forall|j: int|
                0 <= j < ri ==> {
                    &&& (#[trigger] states@[j]).model() == init_state()
                    &&& states@[j].token_kind == tm[j].kind
                },
        decreases table@.len() - ri,
    {
        let kind = table[ri].kind;
        proof {
            assert(tm[ri as int] == table@[ri as int].model());
        }
        states.push(MatchState::new(kind));
        ri += 1;
    }
    let mut k: usize = 0;
    loop
        invariant
            tm == table_model(table@),
            table_wf(tm),
            tm.len() == table@.len(),
            input1 == text@.push('\0'),
            n == text@.len(),
            n < usize::MAX,
            start <= n,
            start + k <= n + 1,
            states@.len() == table@.len(),
            forall|j: int|
                0 <= j < table@.len() ==> {
                    &&& (#[trigger] states@[j]).model() == run(
                        tm[j].frags,
                        input1.subrange(start as int, (start + k) as int),
                    )
                    &&& states@[j].token_kind == tm[j].kind
                    &&& run(
                        tm[j].frags,
                        input1.subrange(start as int, (start + k) as int),
                    ).flag != StateFlag::StFinal
                },
            scan(tm, input1, start as int, 0) == scan(tm, input1, start as int, k as int),
        decreases n + 1 - start - k,
    {
        proof {
            assert(input1.len() == n + 1);
        }
        if start + k > n {
            // past the synthetic terminator: true end of input
            let head_null = if start < n {
                text.get_char(start) == '\0'
            } else {
                true
            };
            proof {
                assert(start + k == n + 1);
                assert(k >= 1);
                assert(input1[start as int] == '\0' <==> head_null);
            }
            if head_null {
                return ScanEnd::End;
            } else {
                return ScanEnd::Stuck;
            }
        }
        let c: char = if start + k < n {
            text.get_char(start + k)
        } else {
            '\0'
        };
        let ghost consumed = input1.subrange(start as int, (start + k) as int);
        proof {
            assert(c == input1[(start + k) as int]);
        }
        let w = advance_all(table, &mut states, c, Ghost(consumed));
        match w {
            Some(rule) => {
                proof {
                    assert(scan(tm, input1, start as int, k as int) == (ScanOutcome::Lexeme {
                        rule: rule as int,
                        len: k as int,
                    }));
                    if k == 0 {
                        assert(consumed =~= Seq::<char>::empty());
                        lemma_no_fire_on_empty(tm[rule as int], c);
                        crate::model::lemma_first_fire(tm, consumed, c, 0);
                        assert(false);
                    }
                }
                return ScanEnd::Win { rule, len: k };
            },
            None => {
                proof {
                    assert(scan(tm, input1, start as int, k as int) == scan(
                        tm,
                        input1,
                        start as int,
                        k as int + 1,
                    ));
                    assert(consumed.push(c) =~= input1.subrange(
                        start as int,
                        (start + k + 1) as int,
                    ));
                }
                k += 1;
            },
        }
    }
}

/// Tokenizes `text` against `table`: emits one token per lexeme, each
/// lexeme being cut at the first character on which a rule fires, with
/// rule-declaration order as the tie-break, and ends with exactly one
/// end-of-input token of empty text.  When the input ends mid-lexeme with
/// no rule able to finalize, the unterminated-lexeme error names the
/// position at which the unclaimed lexeme begins.  When every automaton
/// has discarded, the driver deliberately keeps consuming into the
/// unclaimed buffer; the condition surfaces only at end of input.
pub fn tokenize(table: &Vec<Rule>, text: &str) -> (r: Result<Vec<Token>, LexError>)
    requires
        table_wf(table_model(table@)),
        text@.len() < usize::MAX,
    ensures
        ({
            let res = lex_from(table_model(table@), text@.push('\0'), 0);
            match r {
                Ok(toks) => res == Ok::<Seq<TokenModel>, int>(tokens_model(toks@)),
                Err(e) => {
                    &&& e matches LexError::UnterminatedLexeme { pos }
                    &&& res == Err::<Seq<TokenModel>, int>(pos as int)
                },
            }
        }),
{
    let ghost tm = table_model(table@);
    let ghost input1 = text@.push('\0');
    let n = text.unicode_len();
    let mut toks: Vec<Token> = Vec::new();
    let mut start: usize = 0;
    loop
        invariant
            tm == table_model(table@),
            table_wf(tm),
            input1 == text@.push('\0'),
            n == text@.len(),
            n < usize::MAX,
            start <= n,
            lex_from(tm, input1, 0) == prepend_result(
                tokens_model(toks@),
                lex_from(tm, input1, start as int),
            ),
        decreases n - start,
    {
        proof {
            assert(input1.len() == n + 1);
        }
        let o = scan_lexeme(table, text, n, start);
        match o {
            ScanEnd::Win { rule, len } => {
                let lexeme = text.substring_char(start, start + len);
                let val = lexeme.to_owned();
                let kind = table[rule].kind;
                let tok = Token { kind, val };
                let ghost tokm = token_model(tok);
                let ghost toks_old = toks@;
                toks.push(tok);
                proof {
                    let s0 = start as int;
                    let l = len as int;
                    assert(tm[rule as int] == table@[rule as int].model());
                    assert(text@.subrange(s0, s0 + l) =~= input1.subrange(s0, s0 + l));
                    assert(tokm == TokenModel {
                        kind: tm[rule as int].kind,
                        text: input1.subrange(s0, s0 + l),
                    });
                    assert(tokens_model(toks@) =~= tokens_model(toks_old).push(tokm));
                    let r0 = lex_from(tm, input1, s0 + l);
                    match r0 {
                        Ok(rest) => {
                            assert(lex_from(tm, input1, s0) == Ok::<Seq<TokenModel>, int>(
                                seq![tokm] + rest,
                            ));
                            assert(tokens_model(toks_old) + (seq![tokm] + rest) =~= tokens_model(
                                toks@,
                            ) + rest);
                        },
                        Err(_) => {
                            assert(lex_from(tm, input1, s0) == r0);
                        },
                    }
                }
                start = start + len;
            },
            ScanEnd::End => {
                let tok = Token { kind: TokenKind::TkEOF, val: String::new() };
                let ghost tokm = token_model(tok);
                let ghost toks_old = toks@;
                toks.push(tok);
                proof {
                    assert(tokm == eof_token());
                    assert(tokens_model(toks@) =~= tokens_model(toks_old).push(tokm));
                    assert(lex_from(tm, input1, start as int) == Ok::<Seq<TokenModel>, int>(
                        seq![eof_token()],
                    ));
                    assert(tokens_model(toks_old) + seq![eof_token()] =~= tokens_model(toks@));
                }
                return Ok(toks);
            },
            ScanEnd::Stuck => {
                proof {
                    assert(lex_from(tm, input1, start as int) == Err::<Seq<TokenModel>, int>(
                        start as int,
                    ));
                }
                return Err(LexError::UnterminatedLexeme { pos: start });
            },
        }
    }
}

/// Tokenizes `text` with the built-in rule table of `lexing_rules`.
pub fn lex(text: &str) -> (r: Result<Vec<Token>, LexError>)
    requires
        text@.len() < usize::MAX,
    ensures
        ({
            let res = lex_from(crate::lexing_rules::spec_default_rules(), text@.push('\0'), 0);
            match r {
                Ok(toks) => res == Ok::<Seq<TokenModel>, int>(tokens_model(toks@)),
                Err(e) => {
                    &&& e matches LexError::UnterminatedLexeme { pos }
                    &&& res == Err::<Seq<TokenModel>, int>(pos as int)
                },
            }
        }),
{
    let table = crate::lexing_rules::rules();
    tokenize(&table, text)
}

/// The end of the run of characters satisfying `ok` that starts at `i`.
pub open spec fn run_end(s: Seq<char>, i: int, ok: spec_fn(char) -> bool) -> int
    decreases s.len() - i,
{
    if 0 <= i < s.len() && ok(s[i]) {
        run_end(s, i + 1, ok)
    } else {
        i
    }
}

/// An alphabetic or a digit character.
pub open spec fn alnum_char(c: char) -> bool {
    spec_char_kind(c) == CharKind::ChAlpha || spec_char_kind(c) == CharKind::ChNum
}

/// The continuation test of the hand-rolled scanner's identifier runs.
pub open spec fn alnum_pred() -> spec_fn(char) -> bool {
    |c: char| alnum_char(c)
}

/// The continuation test of the hand-rolled scanner's number runs.
pub open spec fn num_pred() -> spec_fn(char) -> bool {
    |c: char| spec_char_kind(c) == CharKind::ChNum
}

/// What the hand-rolled scanner produces from position `i` on, or the
/// position of the character on which it fails.
pub open spec fn spec_simple_lex(s: Seq<char>, i: int) -> Result<Seq<TokenModel>, int>
    decreases s.len() - i,
{
    if !(0 <= i < s.len()) {
        Ok(seq![eof_token()])
    } else {
        let c = s[i];
        let k = spec_char_kind(c);
        if k == CharKind::ChWhite {
            spec_simple_lex(s, i + 1)
        } else if k == CharKind::ChAlpha {
            let j = run_end(s, i, alnum_pred());
            if i < j <= s.len() {
                match spec_simple_lex(s, j) {
                    Ok(rest) => Ok(
                        seq![TokenModel { kind: TokenKind::TkIdent, text: s.subrange(i, j) }]
                            + rest,
                    ),
                    Err(p) => Err(p),
                }
            } else {
                Err(i)
            }
        } else if k == CharKind::ChNum {
            let j = run_end(s, i, num_pred());
            if i < j <= s.len() {
                match spec_simple_lex(s, j) {
                    Ok(rest) => Ok(
                        seq![TokenModel { kind: TokenKind::TkNum, text: s.subrange(i, j) }] + rest,
                    ),
                    Err(p) => Err(p),
                }
            } else {
                Err(i)
            }
        } else if k == CharKind::ChSpecial {
            if c == ';' || c == '{' || c == '}' {
                match spec_simple_lex(s, i + 1) {
                    Ok(rest) => Ok(
                        seq![TokenModel { kind: TokenKind::TkSep, text: seq![c] }] + rest,
                    ),
                    Err(p) => Err(p),
                }
            } else if c == '=' || c == '+' || c == '-' || c == '*' || c == '/' {
                match spec_simple_lex(s, i + 1) {
                    Ok(rest) => Ok(
                        seq![TokenModel { kind: TokenKind::TkOp, text: seq![c] }] + rest,
                    ),
                    Err(p) => Err(p),
                }
            } else {
                Err(i)
            }
        } else {
            Err(i)
        }
    }
}

/// The hand-rolled alternative scanner, kept beside the rule-driven one:
/// whitespace is dropped, a run of alphabetic-then-alphanumeric
/// characters is one identifier, a run of digits is one number, and a
/// single special character is a separator (`;`, `{`, `}`) or an
/// operator (`=`, `+`, `-`, `*`, `/`).  A run that reaches the end of
/// the input finalizes there.
pub fn _lex(text: &str) -> (r: Result<Vec<Token>, LexError>)
    ensures
        ({
            match r {
                Ok(toks) => spec_simple_lex(text@, 0) == Ok::<Seq<TokenModel>, int>(
                    tokens_model(toks@),
                ),
                Err(e) => {
                    &&& e matches LexError::UnknownChar { pos }
                    &&& spec_simple_lex(text@, 0) == Err::<Seq<TokenModel>, int>(pos as int)
                },
            }
        }),
{
    let n = text.unicode_len();
    let mut toks: Vec<Token> = Vec::new();
    let mut i: usize = 0;
    loop
        invariant
            n == text@.len(),
            i <= n,
            spec_simple_lex(text@, 0) == (match spec_simple_lex(text@, i as int) {
                Ok(rest) => Ok::<Seq<TokenModel>, int>(tokens_model(toks@) + rest),
                Err(p) => Err::<Seq<TokenModel>, int>(p),
            }),
        decreases n - i,
    {
        if i == n {
            let tok = Token { kind: TokenKind::TkEOF, val: String::new() };
            let ghost toks_old = toks@;
            toks.push(tok);
            proof {
                assert(spec_simple_lex(text@, i as int) == Ok::<Seq<TokenModel>, int>(
                    seq![eof_token()],
                ));
                assert(tokens_model(toks@) =~= tokens_model(toks_old).push(eof_token()));
                assert(tokens_model(toks_old) + seq![eof_token()] =~= tokens_model(toks@));
            }
            return Ok(toks);
        }
        let c = text.get_char(i);
        let k = char_kind(c);
        match k {
            CharKind::ChWhite => {
                i += 1;
            },
            CharKind::ChAlpha | CharKind::ChNum => {
                let is_ident = match k {
                    CharKind::ChAlpha => true,
                    _ => false,
                };
                let ghost pred = if is_ident {
                    alnum_pred()
                } else {
                    num_pred()
                };
                let mut j = i + 1;
                proof {
                    assert(pred(text@[i as int]));
                    assert(run_end(text@, i as int, pred) == run_end(text@, i as int + 1, pred));
                }
                loop
                    invariant
                        n == text@.len(),
                        i < j <= n,
                        pred == (if is_ident {
                            alnum_pred()
                        } else {
                            num_pred()
                        }),
                        run_end(text@, i as int, pred) == run_end(text@, j as int, pred),
                    ensures
                        i < j <= n,
                        run_end(text@, i as int, pred) == run_end(text@, j as int, pred),
                        j == n || !pred(text@[j as int]),
                    decreases n - j,
                {
                    if j == n {
                        break ;
                    }
                    let cj = text.get_char(j);
                    let kj = char_kind(cj);
                    let goes_on = if is_ident {
                        match kj {
                            CharKind::ChAlpha | CharKind::ChNum => true,
                            _ => false,
                        }
                    } else {
                        match kj {
                            CharKind::ChNum => true,
                            _ => false,
                        }
                    };
                    if !goes_on {
                        proof {
                            assert(!pred(text@[j as int]));
                        }
                        break ;
                    }
                    proof {
                        assert(pred(text@[j as int]));
                        assert(run_end(text@, j as int, pred) == run_end(text@, j as int + 1, pred));
                    }
                    j += 1;
                }
                let lexeme = text.substring_char(i, j);
                let val = lexeme.to_owned();
                let tok = Token {
                    kind: if is_ident {
                        TokenKind::TkIdent
                    } else {
                        TokenKind::TkNum
                    },
                    val,
                };
                let ghost tokm = token_model(tok);
                let ghost toks_old = toks@;
                toks.push(tok);
                proof {
                    assert(run_end(text@, j as int, pred) == j as int);
                    assert(run_end(text@, i as int, pred) == j as int);
                    assert(tokens_model(toks@) =~= tokens_model(toks_old).push(tokm));
                    match spec_simple_lex(text@, j as int) {
                        Ok(rest) => {
                            assert(spec_simple_lex(text@, i as int) == Ok::<Seq<TokenModel>, int>(
                                seq![tokm] + rest,
                            ));
                            assert(tokens_model(toks_old) + (seq![tokm] + rest) =~= tokens_model(
                                toks@,
                            ) + rest);
                        },
                        Err(_) => {},
                    }
                }
                i = j;
            },
            CharKind::ChSpecial => {
                let is_sep = c == ';' || c == '{' || c == '}';
                let is_op = c == '=' || c == '+' || c == '-' || c == '*' || c == '/';
                if is_sep || is_op {
                    let lexeme = text.substring_char(i, i + 1);
                    let val = lexeme.to_owned();
                    let tok = Token {
                        kind: if is_sep {
                            TokenKind::TkSep
                        } else {
                            TokenKind::TkOp
                        },
                        val,
                    };
                    let ghost tokm = token_model(tok);
                    let ghost toks_old = toks@;
                    toks.push(tok);
                    proof {
                        assert(text@.subrange(i as int, i as int + 1) =~= seq![text@[i as int]]);
                        assert(tokens_model(toks@) =~= tokens_model(toks_old).push(tokm));
                        match spec_simple_lex(text@, i as int + 1) {
                            Ok(rest) => {
                                assert(spec_simple_lex(text@, i as int) == Ok::<
                                    Seq<TokenModel>,
                                    int,
                                >(seq![tokm] + rest));
                                assert(tokens_model(toks_old) + (seq![tokm] + rest)
                                    =~= tokens_model(toks@) + rest);
                            },
                            Err(_) => {},
                        }
                    }
                    i += 1;
                } else {
                    return Err(LexError::UnknownChar { pos: i });
                }
            },
            CharKind::ChOther | CharKind::ChNull => {
                return Err(LexError::UnknownChar { pos: i });
            },
        }
    }
}

} // verus!
