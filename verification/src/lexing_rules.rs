//! The declarative rule table: structural character predicates, quantified
//! pattern fragments, and the built-in set of lexical rules.

use vstd::prelude::*;

use crate::lexer::{char_kind, spec_char_kind, CharKind};
use crate::model::{table_wf, FragModel, RuleModel};
use crate::token::TokenKind;

verus! {

/// A structural character predicate: a boolean expression over the coarse
/// character classes and literal characters.  Boundary fragments negate
/// the union of the classes that may legally continue a lexeme.
#[derive(Debug)]
pub enum Pred {
    /// Matches every character.
    Any,
    /// Matches the characters of one coarse class.
    Class(CharKind),
    /// Matches one literal character.
    Lit(char),
    /// Matches where the inner predicate does not.
    Not(Box<Pred>),
    /// Matches where both inner predicates do.
    And(Box<Pred>, Box<Pred>),
    /// Matches where either inner predicate does.
    Or(Box<Pred>, Box<Pred>),
}

impl Pred {
    /// What the predicate means on one character.
    pub open spec fn accepts(self, c: char) -> bool
        decreases self,
    {
        match self {
            Pred::Any => true,
            Pred::Class(k) => spec_char_kind(c) == k,
            Pred::Lit(l) => c == l,
            Pred::Not(p) => !p.accepts(c),
            Pred::And(p, q) => p.accepts(c) && q.accepts(c),
            Pred::Or(p, q) => p.accepts(c) || q.accepts(c),
        }
    }

    /// Evaluates the predicate on one character, purely and without side
    /// effects.
    pub fn eval(&self, c: char) -> (r: bool)
        ensures
            r == self.accepts(c),
        decreases *self,
    {
        match self {
            Pred::Any => true,
            Pred::Class(k) => {
                let ck = char_kind(c);
                ck == *k
            },
            Pred::Lit(l) => c == *l,
            Pred::Not(p) => !p.eval(c),
            Pred::And(p, q) => p.eval(c) && q.eval(c),
            Pred::Or(p, q) => p.eval(c) || q.eval(c),
        }
    }
}

/// One quantified fragment of a rule's pattern: a character predicate and
/// a repetition quantity.  A positive quantity `n` demands exactly `n`
/// consecutive matches; quantity `0` demands one match and then matches
/// unboundedly; a negative quantity is unbounded-optional.
pub struct PatternFrag {
    pub matcher: Pred,
    pub quantity: i8,
}

impl PatternFrag {
    /// The fragment as mathematics.
    pub open spec fn model(self) -> FragModel {
        FragModel { ok: |c: char| self.matcher.accepts(c), quantity: self.quantity as int }
    }
}

/// The mathematical image of a fragment sequence.
pub open spec fn frags_model(s: Seq<PatternFrag>) -> Seq<FragModel> {
    s.map_values(|f: PatternFrag| f.model())
}

/// One lexical rule: the token kind it produces and its pattern.  By the
/// table's convention the last fragment is a zero-width boundary check
/// that confirms a legal terminator without consuming it.
pub struct Rule {
    pub kind: TokenKind,
    pub frags: Vec<PatternFrag>,
}

impl Rule {
    /// The rule as mathematics.
    pub open spec fn model(self) -> RuleModel {
        RuleModel { kind: self.kind, frags: frags_model(self.frags@) }
    }
}

/// The mathematical image of a rule table.
pub open spec fn table_model(rs: Seq<Rule>) -> Seq<RuleModel> {
    rs.map_values(|r: Rule| r.model())
}

/// The built-in rule table, as mathematics.  Order is significant: when
/// several rules could finalize on the same character, the earliest one
/// listed here wins.
pub open spec fn spec_default_rules() -> Seq<RuleModel> {
    seq![
        RuleModel {
            kind: TokenKind::TkWhite,
            frags: seq![
                FragModel { ok: |c: char| spec_char_kind(c) == CharKind::ChWhite, quantity: 0 },
                FragModel {
                    ok: |c: char| !(spec_char_kind(c) == CharKind::ChWhite),
                    quantity: 1,
                },
            ],
        },
        RuleModel {
            kind: TokenKind::TkNum,
            frags: seq![
                FragModel { ok: |c: char| spec_char_kind(c) == CharKind::ChNum, quantity: 0 },
                FragModel {
                    ok: |c: char|
                        !(spec_char_kind(c) == CharKind::ChNum || spec_char_kind(c)
                            == CharKind::ChAlpha),
                    quantity: 1,
                },
            ],
        },
        RuleModel {
            kind: TokenKind::TkKeyword,
            frags: seq![
                FragModel { ok: |c: char| c == 'l', quantity: 1 },
                FragModel { ok: |c: char| c == 'e', quantity: 1 },
                FragModel { ok: |c: char| c == 't', quantity: 1 },
                FragModel {
                    ok: |c: char|
                        !(spec_char_kind(c) == CharKind::ChAlpha || spec_char_kind(c)
                            == CharKind::ChNum),
                    quantity: 1,
                },
            ],
        },
        RuleModel {
            kind: TokenKind::TkIdent,
            frags: seq![
                FragModel {
                    ok: |c: char| spec_char_kind(c) == CharKind::ChAlpha || c == '_',
                    quantity: 1,
                },
                FragModel {
                    ok: |c: char|
                        spec_char_kind(c) == CharKind::ChAlpha || spec_char_kind(c)
                            == CharKind::ChNum || c == '_',
                    quantity: -1,
                },
                FragModel {
                    ok: |c: char|
                        !(spec_char_kind(c) == CharKind::ChAlpha || spec_char_kind(c)
                            == CharKind::ChNum || c == '_'),
                    quantity: 1,
                },
            ],
        },
        RuleModel {
            kind: TokenKind::TkOp,
            frags: seq![
                FragModel { ok: |c: char| c == '=', quantity: 1 },
                FragModel {
                    ok: |c: char| !(spec_char_kind(c) == CharKind::ChSpecial),
                    quantity: 1,
                },
            ],
        },
        RuleModel {
            kind: TokenKind::TkSep,
            frags: seq![
                FragModel { ok: |c: char| c == ';' || c == '{' || c == '}', quantity: 1 },
                FragModel { ok: |c: char| true, quantity: 1 },
            ],
        },
    ]
}

/// Builds the built-in rule table: whitespace runs, number literals, the
/// keyword `let`, identifiers, the `=` operator, and the separators `;`,
/// `{` and `}`.
pub fn rules() -> (r: Vec<Rule>)
    ensures
        table_model(r@) == spec_default_rules(),
        table_wf(table_model(r@)),
{
    let mut table: Vec<Rule> = Vec::new();

    let mut frags: Vec<PatternFrag> = Vec::new();
    frags.push(PatternFrag { matcher: Pred::Class(CharKind::ChWhite), quantity: 0 });
    frags.push(
        PatternFrag { matcher: Pred::Not(Box::new(Pred::Class(CharKind::ChWhite))), quantity: 1 },
    );
    table.push(Rule { kind: TokenKind::TkWhite, frags });

    let mut frags: Vec<PatternFrag> = Vec::new();
    frags.push(PatternFrag { matcher: Pred::Class(CharKind::ChNum), quantity: 0 });
    frags.push(
        PatternFrag {
            matcher: Pred::Not(
                Box::new(
                    Pred::Or(
                        Box::new(Pred::Class(CharKind::ChNum)),
                        Box::new(Pred::Class(CharKind::ChAlpha)),
                    ),
                ),
            ),
            quantity: 1,
        },
    );
    table.push(Rule { kind: TokenKind::TkNum, frags });

    let mut frags: Vec<PatternFrag> = Vec::new();
    frags.push(PatternFrag { matcher: Pred::Lit('l'), quantity: 1 });
    frags.push(PatternFrag { matcher: Pred::Lit('e'), quantity: 1 });
    frags.push(PatternFrag { matcher: Pred::Lit('t'), quantity: 1 });
    frags.push(
        PatternFrag {
            matcher: Pred::Not(
                Box::new(
                    Pred::Or(
                        Box::new(Pred::Class(CharKind::ChAlpha)),
                        Box::new(Pred::Class(CharKind::ChNum)),
                    ),
                ),
            ),
            quantity: 1,
        },
    );
    table.push(Rule { kind: TokenKind::TkKeyword, frags });

    let mut frags: Vec<PatternFrag> = Vec::new();
    frags.push(
        PatternFrag {
            matcher: Pred::Or(Box::new(Pred::Class(CharKind::ChAlpha)), Box::new(Pred::Lit('_'))),
            quantity: 1,
        },
    );
    frags.push(
        PatternFrag {
            matcher: Pred::Or(
                Box::new(Pred::Class(CharKind::ChAlpha)),
                Box::new(Pred::Or(Box::new(Pred::Class(CharKind::ChNum)), Box::new(Pred::Lit('_')))),
            ),
            quantity: -1,
        },
    );
    frags.push(
        PatternFrag {
            matcher: Pred::Not(
                Box::new(
                    Pred::Or(
                        Box::new(Pred::Class(CharKind::ChAlpha)),
                        Box::new(
                            Pred::Or(Box::new(Pred::Class(CharKind::ChNum)), Box::new(Pred::Lit('_'))),
                        ),
                    ),
                ),
            ),
            quantity: 1,
        },
    );
    table.push(Rule { kind: TokenKind::TkIdent, frags });

    let mut frags: Vec<PatternFrag> = Vec::new();
    frags.push(PatternFrag { matcher: Pred::Lit('='), quantity: 1 });
    frags.push(
        PatternFrag { matcher: Pred::Not(Box::new(Pred::Class(CharKind::ChSpecial))), quantity: 1 },
    );
    table.push(Rule { kind: TokenKind::TkOp, frags });

    let mut frags: Vec<PatternFrag> = Vec::new();
    frags.push(
        PatternFrag {
            matcher: Pred::Or(
                Box::new(Pred::Lit(';')),
                Box::new(Pred::Or(Box::new(Pred::Lit('{')), Box::new(Pred::Lit('}')))),
            ),
            quantity: 1,
        },
    );
    frags.push(PatternFrag { matcher: Pred::Any, quantity: 1 });
    table.push(Rule { kind: TokenKind::TkSep, frags });

    proof {
        reveal_with_fuel(Pred::accepts, 6);
        assert(table_model(table@) =~~= spec_default_rules());
        let tm = table_model(table@);
        assert forall|i: int| 0 <= i < tm.len() implies {
            &&& (#[trigger] tm[i]).frags.len() >= 1
            &&& !crate::model::rule_can_fire_immediately(tm[i].frags)
        } by {
            assert(tm[i].frags[0].quantity >= 0);
            assert(tm[i].frags.len() >= 2);
        }
    }
    table
}

} // verus!
