//! The engine's laws, stated over the mathematical model and proved once
//! and for all: determinism, coverage of the input by the emitted token
//! texts, tie-break by rule-declaration order, and greedy maximal munch
//! for identifier runs under the built-in table.

use vstd::prelude::*;

use crate::lexer::{digit_char, spec_char_kind, CharKind};
use crate::lexing_rules::spec_default_rules;
use crate::model::{
    concat_texts, eof_token, first_fire, init_state, lex_from, rule_fires, run, scan, step,
    table_wf, lemma_first_fire, lemma_no_fire_on_empty, lemma_run_wf, lemma_scan_lexeme,
    lemma_step_final_matches_last, AutoState, FragModel, RuleModel, ScanOutcome, StateFlag,
    TokenModel,
};

verus! {

/// Determinism: the token sequence is a function of the rule table and
/// the input text alone.  Two results of tokenizing the same text against
/// the same table are the same; no hidden state carries over between
/// calls.
pub proof fn lemma_tokenize_deterministic(
    table: Seq<RuleModel>,
    input: Seq<char>,
    r1: Result<Seq<TokenModel>, int>,
    r2: Result<Seq<TokenModel>, int>,
)
    requires
        r1 == lex_from(table, input.push('\0'), 0),
        r2 == lex_from(table, input.push('\0'), 0),
    ensures
        r1 == r2,
{
}

/// An `Eof` scan outcome at a position inside the input means the
/// character there is the terminator.
proof fn lemma_scan_eof(table: Seq<RuleModel>, input1: Seq<char>, start: int, k: int)
    requires
        0 <= start < input1.len(),
        0 <= k,
        scan(table, input1, start, k) == ScanOutcome::Eof,
    ensures
        input1[start] == '\0',
    decreases input1.len() - start - k,
{
    if start + k < input1.len() {
        let w = first_fire(table, input1.subrange(start, start + k), input1[start + k], 0);
        if w < table.len() {
        } else {
            lemma_scan_eof(table, input1, start, k + 1);
        }
    }
}

/// Coverage from one position on: a successful token sequence's texts
/// concatenate to the rest of the input before the terminator.
proof fn lemma_coverage_from(
    table: Seq<RuleModel>,
    input1: Seq<char>,
    start: int,
    toks: Seq<TokenModel>,
)
    requires
        input1.len() >= 1,
        0 <= start <= input1.len() - 1,
        input1[input1.len() - 1] == '\0',
        forall|j: int| 0 <= j < input1.len() - 1 ==> input1[j] != '\0',
        lex_from(table, input1, start) == Ok::<Seq<TokenModel>, int>(toks),
    ensures
        concat_texts(toks) == input1.subrange(start, input1.len() - 1),
    decreases input1.len() - start,
{
    let o = scan(table, input1, start, 0);
    match o {
        ScanOutcome::Eof => {
            if start < input1.len() {
                lemma_scan_eof(table, input1, start, 0);
            }
            assert(start == input1.len() - 1);
            assert(toks =~= seq![eof_token()]);
            assert(toks.drop_first() =~= Seq::<TokenModel>::empty());
            assert(concat_texts(Seq::<TokenModel>::empty()) =~= Seq::<char>::empty());
            assert(concat_texts(toks) == toks.first().text + concat_texts(toks.drop_first()));
            assert(concat_texts(toks) =~= Seq::<char>::empty());
            assert(input1.subrange(start, input1.len() - 1) =~= Seq::<char>::empty());
        },
        ScanOutcome::Fatal => {
            assert(false);
        },
        ScanOutcome::Lexeme { rule, len } => {
            lemma_scan_lexeme(table, input1, start, 0);
            assert(1 <= len && start + len <= input1.len());
            let rest = match lex_from(table, input1, start + len) {
                Ok(rest) => rest,
                Err(_) => Seq::<TokenModel>::empty(),
            };
            assert(lex_from(table, input1, start + len) == Ok::<Seq<TokenModel>, int>(rest));
            assert(start + len < input1.len());
            lemma_coverage_from(table, input1, start + len, rest);
            let tok = TokenModel { kind: table[rule].kind, text: input1.subrange(start, start + len) };
            assert(toks =~= seq![tok] + rest);
            assert((seq![tok] + rest).first() == tok);
            assert((seq![tok] + rest).drop_first() =~= rest);
            assert(concat_texts(toks) == tok.text + concat_texts(rest));
            assert(tok.text + input1.subrange(start + len, input1.len() - 1) =~= input1.subrange(
                start,
                input1.len() - 1,
            ));
        },
    }
}

/// Coverage: when tokenization succeeds on a text that does not contain
/// the terminator character, the concatenation of all emitted token
/// texts is the input text itself: no characters are lost or duplicated.
pub proof fn lemma_tokenize_covers_input(
    table: Seq<RuleModel>,
    input: Seq<char>,
    toks: Seq<TokenModel>,
)
    requires
        forall|j: int| 0 <= j < input.len() ==> input[j] != '\0',
        lex_from(table, input.push('\0'), 0) == Ok::<Seq<TokenModel>, int>(toks),
    ensures
        concat_texts(toks) == input,
{
    let input1 = input.push('\0');
    assert(input1.len() == input.len() + 1);
    assert(input1[input1.len() - 1] == '\0');
    lemma_coverage_from(table, input1, 0, toks);
    assert(input1.subrange(0, input.len() as int) =~= input);
}

/// Tie-break by declaration order: when a lexeme ends, the winning rule
/// fires at its boundary, and any other rule that also fires there has no
/// smaller index than the winner's.  Earlier-declared rules win.
pub proof fn lemma_earliest_rule_wins(
    table: Seq<RuleModel>,
    input1: Seq<char>,
    start: int,
    rule: int,
    len: int,
    other: int,
)
    requires
        0 <= start,
        scan(table, input1, start, 0) == (ScanOutcome::Lexeme { rule, len }),
        0 <= other < table.len(),
        rule_fires(table[other], input1.subrange(start, start + len), input1[start + len]),
    ensures
        rule <= other,
        rule_fires(table[rule], input1.subrange(start, start + len), input1[start + len]),
{
    lemma_scan_lexeme(table, input1, start, 0);
    lemma_first_fire(table, input1.subrange(start, start + len), input1[start + len], 0);
}

/// Boundary non-consumption: a rule finalizes upon peeking a character
/// its boundary (last) fragment accepts, and that character enters
/// neither the winning lexeme's text, which stops just before it, nor
/// the consumed input: the next lexeme starts exactly at the boundary.
pub proof fn lemma_boundary_not_consumed(
    table: Seq<RuleModel>,
    input1: Seq<char>,
    start: int,
    rule: int,
    len: int,
)
    requires
        table_wf(table),
        0 <= start,
        scan(table, input1, start, 0) == (ScanOutcome::Lexeme { rule, len }),
    ensures
        0 <= rule < table.len(),
        1 <= len && start + len < input1.len(),
        (table[rule].frags.last().ok)(input1[start + len]),
        lex_from(table, input1, start) == (match lex_from(table, input1, start + len) {
            Ok(rest) => Ok::<Seq<TokenModel>, int>(
                seq![
                    TokenModel { kind: table[rule].kind, text: input1.subrange(start, start + len) },
                ] + rest,
            ),
            Err(p) => Err::<Seq<TokenModel>, int>(p),
        }),
{
    lemma_scan_lexeme(table, input1, start, 0);
    let consumed = input1.subrange(start, start + len);
    let c = input1[start + len];
    assert(rule_fires(table[rule], consumed, c));
    let st = run(table[rule].frags, consumed);
    lemma_run_wf(table[rule].frags, consumed);
    lemma_step_final_matches_last(table[rule].frags, st, c);
}

/// A `Fatal` scan outcome means the character at the lexeme's start is
/// a real one, not the terminator.
proof fn lemma_scan_fatal(table: Seq<RuleModel>, input1: Seq<char>, start: int, k: int)
    requires
        0 <= start < input1.len(),
        0 <= k,
        scan(table, input1, start, k) == ScanOutcome::Fatal,
    ensures
        input1[start] != '\0',
    decreases input1.len() - start - k,
{
    if start + k < input1.len() {
        let w = first_fire(table, input1.subrange(start, start + k), input1[start + k], 0);
        if w < table.len() {
        } else {
            lemma_scan_fatal(table, input1, start, k + 1);
        }
    }
}

/// The error position of a failed tokenization, from one position on.
proof fn lemma_error_position_from(
    table: Seq<RuleModel>,
    input1: Seq<char>,
    start: int,
    p: int,
)
    requires
        table_wf(table),
        input1.len() >= 1,
        input1[input1.len() - 1] == '\0',
        0 <= start <= input1.len() - 1,
        lex_from(table, input1, start) == Err::<Seq<TokenModel>, int>(p),
    ensures
        start <= p <= input1.len() - 1,
        input1[p] != '\0',
        scan(table, input1, p, 0) == ScanOutcome::Fatal,
    decreases input1.len() - start,
{
    let o = scan(table, input1, start, 0);
    match o {
        ScanOutcome::Eof => {
            assert(false);
        },
        ScanOutcome::Fatal => {
            lemma_scan_fatal(table, input1, start, 0);
        },
        ScanOutcome::Lexeme { rule, len } => {
            lemma_scan_lexeme(table, input1, start, 0);
            assert(1 <= len && start + len < input1.len());
            lemma_error_position_from(table, input1, start + len, p);
        },
    }
}

/// Fatal path: a failed tokenization names a position inside the input
/// text, the character there is a real one, and scanning the lexeme that
/// begins there ends fatally — no malformed token is silently emitted
/// for it.
pub proof fn lemma_error_position(table: Seq<RuleModel>, input: Seq<char>, p: int)
    requires
        table_wf(table),
        lex_from(table, input.push('\0'), 0) == Err::<Seq<TokenModel>, int>(p),
    ensures
        0 <= p < input.len(),
        input[p] != '\0',
        scan(table, input.push('\0'), p, 0) == ScanOutcome::Fatal,
{
    let input1 = input.push('\0');
    assert(input1.len() == input.len() + 1);
    assert(input1[input1.len() - 1] == '\0');
    lemma_error_position_from(table, input1, 0, p);
    assert(p != input.len());
    assert(input1[p] == input[p]);
}

/// A successful tokenization ends with exactly one end-of-input token of
/// empty text: the last token is it, and, for a table none of whose
/// rules produces the end-of-input kind, no earlier token carries it.
pub proof fn lemma_single_eof(table: Seq<RuleModel>, input1: Seq<char>, toks: Seq<TokenModel>)
    requires
        forall|i: int|
            0 <= i < table.len() ==> (#[trigger] table[i]).kind != crate::token::TokenKind::TkEOF,
        lex_from(table, input1, 0) == Ok::<Seq<TokenModel>, int>(toks),
    ensures
        toks.len() >= 1,
        toks.last() == eof_token(),
        forall|i: int|
            0 <= i < toks.len() - 1 ==> (#[trigger] toks[i]).kind
                != crate::token::TokenKind::TkEOF,
{
    lemma_single_eof_from(table, input1, 0, toks);
}

/// The induction behind `lemma_single_eof`.
proof fn lemma_single_eof_from(
    table: Seq<RuleModel>,
    input1: Seq<char>,
    start: int,
    toks: Seq<TokenModel>,
)
    requires
        forall|i: int|
            0 <= i < table.len() ==> (#[trigger] table[i]).kind != crate::token::TokenKind::TkEOF,
        lex_from(table, input1, start) == Ok::<Seq<TokenModel>, int>(toks),
    ensures
        toks.len() >= 1,
        toks.last() == eof_token(),
        forall|i: int|
            0 <= i < toks.len() - 1 ==> (#[trigger] toks[i]).kind
                != crate::token::TokenKind::TkEOF,
    decreases input1.len() - start,
{
    let o = scan(table, input1, start, 0);
    match o {
        ScanOutcome::Eof => {
            assert(toks =~= seq![eof_token()]);
        },
        ScanOutcome::Fatal => {
            assert(false);
        },
        ScanOutcome::Lexeme { rule, len } => {
            let rest = match lex_from(table, input1, start + len) {
                Ok(rest) => rest,
                Err(_) => Seq::<TokenModel>::empty(),
            };
            lemma_single_eof_from(table, input1, start + len, rest);
            lemma_scan_lexeme(table, input1, start, 0);
            let tok = TokenModel {
                kind: table[rule].kind,
                text: input1.subrange(start, start + len),
            };
            assert(toks =~= seq![tok] + rest);
            assert(toks.last() == rest.last());
            assert(forall|i: int| 1 <= i < toks.len() ==> toks[i] == rest[i - 1]);
        },
    }
}

/// An ASCII letter, `A` to `Z` or `a` to `z`.
pub open spec fn ascii_letter(c: char) -> bool {
    65 <= c as u32 <= 90 || 97 <= c as u32 <= 122
}

/// A character that may start an ASCII identifier run.
pub open spec fn ascii_ident_start(c: char) -> bool {
    ascii_letter(c) || c == '_'
}

/// A character that may continue an ASCII identifier run.
pub open spec fn ascii_ident_cont(c: char) -> bool {
    ascii_letter(c) || digit_char(c) || c == '_'
}

/// A character the identifier rule's first fragment matches.
pub open spec fn ident_start_class(c: char) -> bool {
    spec_char_kind(c) == CharKind::ChAlpha || c == '_'
}

/// A character the identifier rule's unbounded middle fragment matches.
pub open spec fn ident_cont_class(c: char) -> bool {
    spec_char_kind(c) == CharKind::ChAlpha || spec_char_kind(c) == CharKind::ChNum || c == '_'
}

/// The keyword rule's lexeme.
pub open spec fn let_chars() -> Seq<char> {
    seq!['l', 'e', 't']
}

/// A rule whose first fragment demands a match it does not get on the
/// first character is discarded for the whole lexeme.
proof fn lemma_first_char_discards(frags: Seq<FragModel>, s: Seq<char>)
    requires
        frags.len() >= 1,
        frags[0].quantity >= 0,
        s.len() >= 1,
        !((frags[0].ok)(s[0])),
    ensures
        run(frags, s).flag == StateFlag::StDiscard,
    decreases s.len(),
{
    if s.len() == 1 {
        assert(s.drop_last() =~= Seq::<char>::empty());
        assert(run(frags, Seq::<char>::empty()) == init_state());
        assert(s.last() == s[0]);
    } else {
        assert(s.drop_last()[0] == s[0]);
        lemma_first_char_discards(frags, s.drop_last());
    }
}

/// The identifier rule's automaton, over any identifier prefix, sits on
/// its unbounded middle fragment in the accepting state.
proof fn lemma_ident_rule_run(s: Seq<char>)
    requires
        s.len() >= 1,
        ident_start_class(s[0]),
        forall|t: int| 1 <= t < s.len() ==> ident_cont_class(#[trigger] s[t]),
    ensures
        run(spec_default_rules()[3].frags, s) == (AutoState {
            frag: 1,
            quant: if s.len() == 1 {
                None::<int>
            } else {
                Some(-1)
            },
            flag: StateFlag::StAccept,
        }),
    decreases s.len(),
{
    let fr = spec_default_rules()[3].frags;
    assert(!crate::model::tail_requires_match(fr, 1)) by {
        assert(fr[1].quantity < 0);
    }
    assert(!crate::model::tail_requires_match(fr, 2));
    if s.len() == 1 {
        assert(s.drop_last() =~= Seq::<char>::empty());
        assert(s.last() == s[0]);
        assert((fr[0].ok)(s[0]));
        assert(run(fr, s) == step(fr, init_state(), s[0]));
    } else {
        lemma_ident_rule_run(s.drop_last());
        assert(s.drop_last()[0] == s[0]);
        assert(ident_cont_class(s.last()));
        assert((fr[1].ok)(s.last()));
    }
}

/// The identifier rule fires exactly when the next character cannot
/// continue the run.
proof fn lemma_ident_rule_boundary(s: Seq<char>, c: char)
    requires
        s.len() >= 1,
        ident_start_class(s[0]),
        forall|t: int| 1 <= t < s.len() ==> ident_cont_class(#[trigger] s[t]),
    ensures
        rule_fires(spec_default_rules()[3], s, c) <==> !ident_cont_class(c),
{
    let fr = spec_default_rules()[3].frags;
    lemma_ident_rule_run(s);
    let st = run(fr, s);
    if ident_cont_class(c) {
        assert((fr[1].ok)(c));
        assert(step(fr, st, c).flag != StateFlag::StFinal);
    } else {
        assert(!((fr[1].ok)(c)));
        assert((fr[2].ok)(c));
        assert(step(fr, AutoState { frag: 2, quant: None, flag: st.flag }, c).flag
            == StateFlag::StFinal);
        assert(step(fr, st, c).flag == StateFlag::StFinal);
    }
}

/// The keyword rule's automaton either has been discarded, has finished,
/// or sits after a consumed prefix of `let`.
proof fn lemma_keyword_run(s: Seq<char>)
    ensures
        ({
            let st = run(spec_default_rules()[2].frags, s);
            ||| st.flag == StateFlag::StDiscard
            ||| st.flag == StateFlag::StFinal
            ||| {
                &&& s.len() <= 3
                &&& st.frag == s.len()
                &&& st.quant is None
                &&& st.flag != StateFlag::StDiscard && st.flag != StateFlag::StFinal
                &&& s =~= let_chars().subrange(0, s.len() as int)
            }
        }),
    decreases s.len(),
{
    let fr = spec_default_rules()[2].frags;
    if s.len() == 0 {
        assert(let_chars().subrange(0, 0) =~= Seq::<char>::empty());
    } else {
        lemma_keyword_run(s.drop_last());
        let prev = run(fr, s.drop_last());
        if prev.flag != StateFlag::StDiscard && prev.flag != StateFlag::StFinal {
            let k = s.drop_last().len() as int;
            assert(prev.frag == k && k <= 3);
            if k < 3 {
                if (fr[k].ok)(s.last()) {
                    assert(s =~= let_chars().subrange(0, k + 1));
                }
            }
        }
    }
}

/// The keyword rule fires only at the exact lexeme `let`, on a boundary
/// character that is neither alphabetic nor a digit.
proof fn lemma_keyword_fires_shape(s: Seq<char>, c: char)
    requires
        rule_fires(spec_default_rules()[2], s, c),
    ensures
        s =~= let_chars(),
        spec_char_kind(c) != CharKind::ChAlpha,
        spec_char_kind(c) != CharKind::ChNum,
{
    let fr = spec_default_rules()[2].frags;
    lemma_keyword_run(s);
    let st = run(fr, s);
    assert(st.frag == s.len() && s.len() <= 3);
    if s.len() < 3 {
        assert(step(fr, st, c).flag != StateFlag::StFinal);
    }
    assert(s.len() == 3);
    assert((fr[3].ok)(c));
}

/// The run of the keyword rule over exactly `let`: all three literal
/// fragments matched, the boundary check pending.
proof fn lemma_keyword_run_let()
    ensures
        run(spec_default_rules()[2].frags, let_chars()) == (AutoState {
            frag: 3,
            quant: None::<int>,
            flag: StateFlag::StAccept,
        }),
{
    let fr = spec_default_rules()[2].frags;
    let s1 = seq!['l'];
    let s2 = seq!['l', 'e'];
    let s3 = let_chars();
    assert(fr.len() == 4);
    assert(fr[0].quantity == 1 && fr[1].quantity == 1 && fr[2].quantity == 1 && fr[3].quantity
        == 1);
    assert((fr[0].ok)('l') && (fr[1].ok)('e') && (fr[2].ok)('t'));
    assert(s1.drop_last() =~= Seq::<char>::empty());
    assert(run(fr, Seq::<char>::empty()) == init_state());
    assert(s1.last() == 'l');
    assert(run(fr, s1) == step(fr, init_state(), 'l'));
    assert(crate::model::tail_requires_match(fr, 1)) by {
        assert(fr[1].quantity >= 0);
    }
    assert(run(fr, s1) == AutoState { frag: 1, quant: None::<int>, flag: StateFlag::StParsing });
    assert(s2.drop_last() =~= s1);
    assert(s2.last() == 'e');
    assert(crate::model::tail_requires_match(fr, 2)) by {
        assert(fr[2].quantity >= 0);
    }
    assert(run(fr, s2) == AutoState { frag: 2, quant: None::<int>, flag: StateFlag::StParsing });
    assert(s3.drop_last() =~= s2);
    assert(s3.last() == 't');
    assert(!crate::model::tail_requires_match(fr, 3));
    assert(run(fr, s3) == AutoState { frag: 3, quant: None::<int>, flag: StateFlag::StAccept });
}

/// The built-in table is well formed.
pub proof fn lemma_default_table_wf()
    ensures
        table_wf(spec_default_rules()),
{
    let tm = spec_default_rules();
    assert forall|i: int| 0 <= i < tm.len() implies {
        &&& (#[trigger] tm[i]).frags.len() >= 1
        &&& !crate::model::rule_can_fire_immediately(tm[i].frags)
    } by {
        assert(tm[i].frags[0].quantity >= 0);
    }
}

/// In the middle of an ASCII identifier run no rule of the built-in
/// table fires, so the driver keeps consuming: the unbounded-optional
/// fragment matches greedily, not just one extra character.  The one
/// exception, excluded here, is a run `let` followed by `_`.
proof fn lemma_no_fire_in_ident_run(s: Seq<char>, c: char)
    requires
        s.len() >= 1,
        ascii_ident_start(s[0]),
        forall|t: int| 1 <= t < s.len() ==> ascii_ident_cont(#[trigger] s[t]),
        ascii_ident_cont(c),
        !(s =~= let_chars() && c == '_'),
    ensures
        forall|ri: int|
            0 <= ri < spec_default_rules().len() ==> !rule_fires(
                #[trigger] spec_default_rules()[ri],
                s,
                c,
            ),
{
    let tm = spec_default_rules();
    assert(ident_start_class(s[0]));
    assert(forall|t: int| 1 <= t < s.len() ==> ident_cont_class(#[trigger] s[t]));
    assert(ident_cont_class(c));
    // whitespace, number, operator, separator: first fragment fails
    assert(!((tm[0].frags[0].ok)(s[0])));
    lemma_first_char_discards(tm[0].frags, s);
    assert(!((tm[1].frags[0].ok)(s[0])));
    lemma_first_char_discards(tm[1].frags, s);
    assert(s[0] != '=' && s[0] != ';' && s[0] != '{' && s[0] != '}');
    assert(!((tm[4].frags[0].ok)(s[0])));
    lemma_first_char_discards(tm[4].frags, s);
    assert(!((tm[5].frags[0].ok)(s[0])));
    lemma_first_char_discards(tm[5].frags, s);
    // keyword: fires only at `let` before a non-alphanumeric character
    if rule_fires(tm[2], s, c) {
        lemma_keyword_fires_shape(s, c);
        assert(c == '_');
        assert(false);
    }
    // identifier: the middle fragment still matches
    lemma_ident_rule_boundary(s, c);
}

/// Scanning an ASCII identifier run: from `k` consumed characters on,
/// the lexeme ends exactly at the run's end.
proof fn lemma_ident_scan_from(input1: Seq<char>, start: int, m: int, k: int)
    requires
        0 <= start < m < input1.len(),
        ascii_ident_start(input1[start]),
        forall|t: int| start < t < m ==> ascii_ident_cont(#[trigger] input1[t]),
        !ident_cont_class(input1[m]),
        !(m - start >= 4 && input1.subrange(start, start + 3) =~= let_chars() && input1[start + 3]
            == '_'),
        0 <= k <= m - start,
    ensures
        scan(spec_default_rules(), input1, start, k) == (ScanOutcome::Lexeme {
            rule: if input1.subrange(start, m) =~= let_chars() {
                2int
            } else {
                3int
            },
            len: m - start,
        }),
    decreases m - start - k,
{
    let tm = spec_default_rules();
    let consumed = input1.subrange(start, start + k);
    let c = input1[start + k];
    lemma_first_fire(tm, consumed, c, 0);
    if start + k < m {
        // mid-run: no rule fires
        assert(ascii_ident_cont(c) || k == 0);
        if k == 0 {
            assert(consumed =~= Seq::<char>::empty());
            lemma_default_table_wf();
            assert forall|ri: int| 0 <= ri < tm.len() implies !rule_fires(
                #[trigger] tm[ri],
                consumed,
                c,
            ) by {
                lemma_no_fire_on_empty(tm[ri], c);
            }
        } else {
            assert(consumed[0] == input1[start]);
            assert(forall|t: int| 1 <= t < k ==> consumed[t] == input1[start + t]);
            if consumed =~= let_chars() && c == '_' {
                assert(k == 3);
                assert(input1.subrange(start, start + 3) =~= let_chars());
                assert(m - start >= 4);
                assert(false);
            }
            lemma_no_fire_in_ident_run(consumed, c);
        }
        assert(first_fire(tm, consumed, c, 0) == tm.len());
        lemma_ident_scan_from(input1, start, m, k + 1);
    } else {
        // the boundary: the identifier rule fires; the keyword rule too
        // when the run is exactly `let`, and then it wins by order
        let s = consumed;
        assert(s.len() == m - start);
        assert(s[0] == input1[start]);
        assert(forall|t: int| 1 <= t < s.len() ==> s[t] == input1[start + t]);
        assert(ident_start_class(s[0]));
        assert(forall|t: int| 1 <= t < s.len() ==> ident_cont_class(#[trigger] s[t]));
        lemma_ident_rule_boundary(s, c);
        assert(rule_fires(tm[3], s, c));
        assert(!((tm[0].frags[0].ok)(s[0])));
        lemma_first_char_discards(tm[0].frags, s);
        assert(!rule_fires(tm[0], s, c));
        assert(!((tm[1].frags[0].ok)(s[0])));
        lemma_first_char_discards(tm[1].frags, s);
        assert(!rule_fires(tm[1], s, c));
        if s =~= let_chars() {
            lemma_keyword_run_let();
            assert((tm[2].frags[3].ok)(c));
            assert(rule_fires(tm[2], s, c));
            assert(first_fire(tm, s, c, 0) == 2);
            assert(input1.subrange(start, m) =~= s);
        } else {
            if rule_fires(tm[2], s, c) {
                lemma_keyword_fires_shape(s, c);
                assert(false);
            }
            assert(first_fire(tm, s, c, 0) == 3);
            assert(!(input1.subrange(start, m) =~= let_chars()));
        }
    }
}

/// Greedy maximal munch for ASCII identifier runs under the built-in
/// table: the scan consumes the entire maximal run before finalizing,
/// and cuts the lexeme exactly at the first character that cannot
/// continue it.  The winner is the keyword rule where the run is exactly
/// `let`, else the identifier rule.  The one excluded shape is a run
/// whose first three characters are `let` followed by `_`: there the
/// keyword rule's boundary fires after `let`, by the table's design.
pub proof fn lemma_ident_maximal_munch(input1: Seq<char>, start: int, m: int)
    requires
        0 <= start < m < input1.len(),
        ascii_ident_start(input1[start]),
        forall|t: int| start < t < m ==> ascii_ident_cont(#[trigger] input1[t]),
        !ident_cont_class(input1[m]),
        !(m - start >= 4 && input1.subrange(start, start + 3) =~= let_chars() && input1[start + 3]
            == '_'),
    ensures
        scan(spec_default_rules(), input1, start, 0) == (ScanOutcome::Lexeme {
            rule: if input1.subrange(start, m) =~= let_chars() {
                2int
            } else {
                3int
            },
            len: m - start,
        }),
{
    lemma_ident_scan_from(input1, start, m, 0);
}

} // verus!
