//! The mathematical model of the rule-driven automaton engine.
//!
//! Everything here is specification: a pattern fragment is a character
//! predicate with a repetition quantity, one automaton per rule steps over
//! the input one character at a time, and the driver resolves the first
//! rule (in table order) that reaches `StFinal` into a token.  The
//! executable code in `lexer` is proved to agree with these functions.

use vstd::prelude::*;

use crate::token::{Token, TokenKind};

verus! {

/// Status of one rule's automaton while a lexeme is scanned.
#[derive(Clone, Copy, Debug, PartialEq, Eq, Structural)]
pub enum StateFlag {
    /// No character consumed yet for the current lexeme.
    StInit,
    /// Mid-match; mandatory fragments remain before the pattern could end.
    StParsing,
    /// Mid-match, but the lexeme so far would already be a legal token.
    StAccept,
    /// The rule has been eliminated for the current lexeme.
    StDiscard,
    /// The pattern is fully satisfied, boundary fragment included.
    StFinal,
    /// Invariant violation; proved unreachable in the verified driver.
    StFail,
}

/// One pattern fragment, as mathematics: which characters it matches and
/// its repetition quantity.  A positive quantity `n` demands exactly `n`
/// consecutive matches; quantity `0` demands one match and then matches
/// unboundedly; a negative quantity matches unboundedly and may be skipped
/// without failing.
#[verifier::ext_equal]
pub ghost struct FragModel {
    pub ok: spec_fn(char) -> bool,
    pub quantity: int,
}

/// One lexical rule: the token kind it produces and its fragment sequence.
#[verifier::ext_equal]
pub ghost struct RuleModel {
    pub kind: TokenKind,
    pub frags: Seq<FragModel>,
}

/// The state of one rule's automaton: current fragment index, repetitions
/// remaining for the fragment in progress (`None` while the fragment has
/// not yet consumed a character), and the status flag.
pub ghost struct AutoState {
    pub frag: int,
    pub quant: Option<int>,
    pub flag: StateFlag,
}

/// The automaton state at the start of every lexeme.
pub open spec fn init_state() -> AutoState {
    AutoState { frag: 0, quant: None, flag: StateFlag::StInit }
}

/// Whether a fragment at or after position `from`, the trailing boundary
/// fragment excluded, still demands a match.  Fragments with a
/// non-negative quantity demand at least one match; the last fragment is
/// the zero-width boundary check and never counts.
pub open spec fn tail_requires_match(frags: Seq<FragModel>, from: int) -> bool {
    exists|j: int| from <= j < frags.len() - 1 && (#[trigger] frags[j].quantity) >= 0
}

/// The status after a successful (non-final) step: `StAccept` when the
/// lexeme so far is already a legal complete token — no mandatory work
/// remains but the trailing boundary check — else `StParsing`.  The
/// remaining fragments are counted from the current one: a fragment that
/// was just entered and has not yet consumed a character (`quant` is
/// `None`) is itself still owed, while one in progress has its remaining
/// repetitions accounted for by `quant`.
pub open spec fn accept_flag(frags: Seq<FragModel>, frag: int, quant: Option<int>) -> StateFlag {
    let from = if quant is None {
        frag
    } else {
        frag + 1
    };
    if (quant matches Some(q) && q > 0) || tail_requires_match(frags, from) {
        StateFlag::StParsing
    } else {
        StateFlag::StAccept
    }
}

/// One automaton step on the peeked character `c`.
///
/// On a match the fragment's remaining quantity counts down; reaching zero
/// advances to the next fragment, and advancing past the end is `StFinal`.
/// On a non-match a fragment that still demands a match discards the rule,
/// while an unbounded-optional fragment is skipped and the same character
/// is retried against the next fragment without being consumed.
pub open spec fn step(frags: Seq<FragModel>, st: AutoState, c: char) -> AutoState
    decreases frags.len() - st.frag,
{
    if !(0 <= st.frag < frags.len()) {
        st
    } else {
        let f = frags[st.frag];
        let q = match st.quant {
            Some(v) => v,
            None => f.quantity,
        };
        if (f.ok)(c) {
            if q > 1 {
                AutoState {
                    frag: st.frag,
                    quant: Some(q - 1),
                    flag: accept_flag(frags, st.frag, Some(q - 1)),
                }
            } else if q == 1 {
                if st.frag + 1 == frags.len() {
                    AutoState { frag: st.frag + 1, quant: None, flag: StateFlag::StFinal }
                } else {
                    AutoState {
                        frag: st.frag + 1,
                        quant: None,
                        flag: accept_flag(frags, st.frag + 1, None),
                    }
                }
            } else {
                let nq = if q == 0 {
                    -1
                } else {
                    q
                };
                AutoState {
                    frag: st.frag,
                    quant: Some(nq),
                    flag: accept_flag(frags, st.frag, Some(nq)),
                }
            }
        } else {
            if q >= 0 {
                AutoState { frag: st.frag + 1, quant: None, flag: StateFlag::StDiscard }
            } else if st.frag + 1 < frags.len() {
                step(frags, AutoState { frag: st.frag + 1, quant: None, flag: st.flag }, c)
            } else {
                AutoState { frag: st.frag + 1, quant: None, flag: StateFlag::StDiscard }
            }
        }
    }
}

/// The automaton state after feeding the characters of `s` in order to a
/// fresh automaton.  A discarded automaton is skipped by the driver, so
/// `StDiscard` absorbs; `StFinal` ends the lexeme, so it absorbs as well.
pub open spec fn run(frags: Seq<FragModel>, s: Seq<char>) -> AutoState
    decreases s.len(),
{
    if s.len() == 0 {
        init_state()
    } else {
        let prev = run(frags, s.drop_last());
        if prev.flag == StateFlag::StDiscard || prev.flag == StateFlag::StFinal {
            prev
        } else {
            step(frags, prev, s.last())
        }
    }
}

/// Whether rule `r`, after consuming `consumed`, reaches `StFinal` on the
/// peeked boundary character `c`.
pub open spec fn rule_fires(r: RuleModel, consumed: Seq<char>, c: char) -> bool {
    let st = run(r.frags, consumed);
    &&& st.flag != StateFlag::StDiscard
    &&& st.flag != StateFlag::StFinal
    &&& step(r.frags, st, c).flag == StateFlag::StFinal
}

/// The least rule index `>= from` that fires, or `table.len()` when none
/// does.  Rule-declaration order is the tie-break: the first rule to reach
/// `StFinal` on a character wins.
pub open spec fn first_fire(table: Seq<RuleModel>, consumed: Seq<char>, c: char, from: int) -> int
    decreases table.len() - from,
{
    if !(0 <= from < table.len()) {
        table.len() as int
    } else if rule_fires(table[from], consumed, c) {
        from
    } else {
        first_fire(table, consumed, c, from + 1)
    }
}

/// How scanning one lexeme ends.
pub ghost enum ScanOutcome {
    /// Rule `rule` wins after the lexeme consumed `len` characters; the
    /// boundary character is peeked, not consumed.
    Lexeme { rule: int, len: int },
    /// Input ran out with nothing pending: the end-of-input token is owed.
    Eof,
    /// Input ran out mid-lexeme with no rule able to finalize.
    Fatal,
}

/// Scans one lexeme that starts at `start`, with `k` characters consumed
/// so far, over `input1` (the input text with the synthetic terminator
/// appended).  Each character is first offered to every live automaton as
/// a boundary; if no rule fires it is consumed into the lexeme.
pub open spec fn scan(table: Seq<RuleModel>, input1: Seq<char>, start: int, k: int) -> ScanOutcome
    decreases input1.len() - start - k,
{
    if start + k >= input1.len() {
        if k == 0 || input1[start] == '\0' {
            ScanOutcome::Eof
        } else {
            ScanOutcome::Fatal
        }
    } else {
        let w = first_fire(table, input1.subrange(start, start + k), input1[start + k], 0);
        if w < table.len() {
            ScanOutcome::Lexeme { rule: w, len: k }
        } else {
            scan(table, input1, start, k + 1)
        }
    }
}

/// One token, as mathematics.
#[verifier::ext_equal]
pub ghost struct TokenModel {
    pub kind: TokenKind,
    pub text: Seq<char>,
}

/// The terminal end-of-input token.
pub open spec fn eof_token() -> TokenModel {
    TokenModel { kind: TokenKind::TkEOF, text: Seq::empty() }
}

/// The token sequence produced from `start` on, or the position of the
/// lexeme on which tokenization fails fatally.  `input1` is the input text
/// with the synthetic terminator appended.
pub open spec fn lex_from(table: Seq<RuleModel>, input1: Seq<char>, start: int) -> Result<
    Seq<TokenModel>,
    int,
>
    decreases input1.len() - start,
{
    match scan(table, input1, start, 0) {
        ScanOutcome::Eof => Ok(seq![eof_token()]),
        ScanOutcome::Fatal => Err(start),
        ScanOutcome::Lexeme { rule, len } => {
            if 1 <= len && 0 <= start && start + len <= input1.len() {
                match lex_from(table, input1, start + len) {
                    Ok(rest) => Ok(
                        seq![
                            TokenModel {
                                kind: table[rule].kind,
                                text: input1.subrange(start, start + len),
                            },
                        ] + rest,
                    ),
                    Err(p) => Err(p),
                }
            } else {
                // Unreachable for a well-formed table: a winning lexeme
                // consumes at least one character.
                Err(start)
            }
        },
    }
}

/// Prefixes an already-emitted token sequence onto a pending result.
pub open spec fn prepend_result(pre: Seq<TokenModel>, r: Result<Seq<TokenModel>, int>) -> Result<
    Seq<TokenModel>,
    int,
> {
    match r {
        Ok(rest) => Ok(pre + rest),
        Err(p) => Err(p),
    }
}

/// The mathematical image of an executable token.
pub open spec fn token_model(t: Token) -> TokenModel {
    TokenModel { kind: t.kind, text: t.val@ }
}

/// The mathematical image of an executable token sequence.
pub open spec fn tokens_model(ts: Seq<Token>) -> Seq<TokenModel> {
    ts.map_values(|t: Token| token_model(t))
}

/// The concatenation of the token texts, in order.
pub open spec fn concat_texts(ts: Seq<TokenModel>) -> Seq<char>
    decreases ts.len(),
{
    if ts.len() == 0 {
        Seq::empty()
    } else {
        ts.first().text + concat_texts(ts.drop_first())
    }
}

/// Well-formedness of one automaton state against a pattern of `len`
/// fragments: the fragment index stays in range, `StFinal` means the index
/// ran past the end, and `StFail` is never reached.
pub open spec fn state_wf(st: AutoState, len: int) -> bool {
    &&& 0 <= st.frag <= len
    &&& st.flag != StateFlag::StFail
    &&& (st.flag == StateFlag::StFinal ==> st.frag == len)
    &&& (st.flag != StateFlag::StFinal && st.flag != StateFlag::StDiscard ==> st.frag < len)
}

/// A pattern that could reach `StFinal` on the very first character of a
/// lexeme: every fragment but the last is skippable and the last demands
/// exactly one match.  Such a rule would win with an empty lexeme and the
/// driver would make no progress.
pub open spec fn rule_can_fire_immediately(frags: Seq<FragModel>) -> bool {
    &&& frags.len() >= 1
    &&& frags.last().quantity == 1
    &&& forall|j: int| 0 <= j < frags.len() - 1 ==> (#[trigger] frags[j].quantity) < 0
}

/// Well-formedness of a rule table: every pattern is non-empty and no
/// rule can finalize before its lexeme has consumed a character.
pub open spec fn table_wf(table: Seq<RuleModel>) -> bool {
    forall|i: int| 0 <= i < table.len() ==> {
        &&& (#[trigger] table[i]).frags.len() >= 1
        &&& !rule_can_fire_immediately(table[i].frags)
    }
}

/// A step from a live, well-formed state yields a well-formed state whose
/// flag is one of `StParsing`, `StAccept`, `StDiscard`, `StFinal`.
pub proof fn lemma_step_wf(frags: Seq<FragModel>, st: AutoState, c: char)
    requires
        state_wf(st, frags.len() as int),
        st.flag != StateFlag::StDiscard,
        st.flag != StateFlag::StFinal,
    ensures
        state_wf(step(frags, st, c), frags.len() as int),
        step(frags, st, c).flag != StateFlag::StInit,
        step(frags, st, c).flag != StateFlag::StFail,
    decreases frags.len() - st.frag,
{
    let f = frags[st.frag];
    let q = match st.quant {
        Some(v) => v,
        None => f.quantity,
    };
    if !((f.ok)(c)) && q < 0 && st.frag + 1 < frags.len() {
        lemma_step_wf(frags, AutoState { frag: st.frag + 1, quant: None, flag: st.flag }, c);
    }
}

/// A fresh automaton stays well formed over any consumed sequence.
pub proof fn lemma_run_wf(frags: Seq<FragModel>, s: Seq<char>)
    requires
        frags.len() >= 1,
    ensures
        state_wf(run(frags, s), frags.len() as int),
    decreases s.len(),
{
    if s.len() > 0 {
        lemma_run_wf(frags, s.drop_last());
        let prev = run(frags, s.drop_last());
        if prev.flag != StateFlag::StDiscard && prev.flag != StateFlag::StFinal {
            lemma_step_wf(frags, prev, s.last());
        }
    }
}

/// A step that reaches `StFinal` from a fragment that has not yet consumed
/// a character must have skipped only unbounded-optional fragments and
/// matched a last fragment of quantity one.
pub proof fn lemma_step_final_from_unstarted(frags: Seq<FragModel>, st: AutoState, c: char)
    requires
        st.quant is None,
        0 <= st.frag < frags.len(),
        step(frags, st, c).flag == StateFlag::StFinal,
    ensures
        frags.last().quantity == 1,
        forall|j: int| st.frag <= j < frags.len() - 1 ==> (#[trigger] frags[j].quantity) < 0,
    decreases frags.len() - st.frag,
{
    let f = frags[st.frag];
    if (f.ok)(c) {
        assert(f.quantity == 1 && st.frag + 1 == frags.len());
    } else {
        if f.quantity < 0 && st.frag + 1 < frags.len() {
            lemma_step_final_from_unstarted(
                frags,
                AutoState { frag: st.frag + 1, quant: None, flag: st.flag },
                c,
            );
        }
    }
}

/// A rule of a well-formed table never fires on an empty lexeme.
pub proof fn lemma_no_fire_on_empty(r: RuleModel, c: char)
    requires
        r.frags.len() >= 1,
        !rule_can_fire_immediately(r.frags),
    ensures
        !rule_fires(r, Seq::empty(), c),
{
    if rule_fires(r, Seq::empty(), c) {
        assert(run(r.frags, Seq::empty()) == init_state());
        lemma_step_final_from_unstarted(r.frags, init_state(), c);
    }
}

/// Whatever path a step takes to `StFinal`, the character matched the
/// pattern's last fragment: a rule can only finalize on a character its
/// boundary fragment accepts.
pub proof fn lemma_step_final_matches_last(frags: Seq<FragModel>, st: AutoState, c: char)
    requires
        0 <= st.frag < frags.len(),
        step(frags, st, c).flag == StateFlag::StFinal,
    ensures
        (frags.last().ok)(c),
    decreases frags.len() - st.frag,
{
    let f = frags[st.frag];
    let q = match st.quant {
        Some(v) => v,
        None => f.quantity,
    };
    if (f.ok)(c) {
        assert(st.frag == frags.len() - 1);
    } else {
        if q < 0 && st.frag + 1 < frags.len() {
            lemma_step_final_matches_last(
                frags,
                AutoState { frag: st.frag + 1, quant: None, flag: st.flag },
                c,
            );
        }
    }
}

/// `first_fire` returns the least firing rule index at or after `from`.
pub proof fn lemma_first_fire(table: Seq<RuleModel>, consumed: Seq<char>, c: char, from: int)
    requires
        0 <= from <= table.len(),
    ensures
        ({
            let w = first_fire(table, consumed, c, from);
            &&& from <= w <= table.len()
            &&& (w < table.len() ==> rule_fires(table[w], consumed, c))
            &&& forall|j: int| from <= j < w ==> !rule_fires(#[trigger] table[j], consumed, c)
        }),
    decreases table.len() - from,
{
    if from < table.len() && !rule_fires(table[from], consumed, c) {
        lemma_first_fire(table, consumed, c, from + 1);
    }
}

/// What a `Lexeme` outcome of `scan` means: the winning rule is the first
/// to fire at the first boundary, the boundary position is in range, and
/// for a well-formed table the lexeme is non-empty.
pub proof fn lemma_scan_lexeme(table: Seq<RuleModel>, input1: Seq<char>, start: int, k0: int)
    requires
        0 <= start,
        0 <= k0,
    ensures
        ({
            let o = scan(table, input1, start, k0);
            o matches ScanOutcome::Lexeme { rule, len } ==> {
                &&& k0 <= len
                &&& start + len < input1.len()
                &&& 0 <= rule < table.len()
                &&& rule == first_fire(
                    table,
                    input1.subrange(start, start + len),
                    input1[start + len],
                    0,
                )
                &&& rule_fires(table[rule], input1.subrange(start, start + len), input1[start + len])
                &&& (table_wf(table) ==> len >= 1)
            }
        }),
    decreases input1.len() - start - k0,
{
    if start + k0 < input1.len() {
        let consumed = input1.subrange(start, start + k0);
        let c = input1[start + k0];
        lemma_first_fire(table, consumed, c, 0);
        let w = first_fire(table, consumed, c, 0);
        if w < table.len() {
            if table_wf(table) && k0 == 0 {
                assert(consumed =~= Seq::<char>::empty());
                lemma_no_fire_on_empty(table[w], c);
            }
        } else {
            lemma_scan_lexeme(table, input1, start, k0 + 1);
        }
    }
}

} // verus!
