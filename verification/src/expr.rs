//! The dice-expression data model, its mathematical view, and its canonical
//! text form (what `Display` wrote for these types).

use vstd::prelude::*;

use crate::text::{decimal, push_decimal, push_signed_decimal, push_str, string_from_chars};

verus! {

// ── Error type ───────────────────────────────────────────────────────────────

/// Error type for dice expression parsing failures.
#[derive(Debug, Clone, PartialEq, Eq)]
pub enum ParseError {
    InvalidDiceCount(String),
    InvalidSides(String),
    NegativeDiceGroup,
    NoDiceFound,
    InvalidToken(String),
}

/// The mathematical value of a [`ParseError`]: the same variants with the
/// offending text as a character sequence.
pub enum ParseFailure {
    InvalidDiceCount(Seq<char>),
    InvalidSides(Seq<char>),
    NegativeDiceGroup,
    NoDiceFound,
    InvalidToken(Seq<char>),
}

impl View for ParseError {
    type V = ParseFailure;

    open spec fn view(&self) -> ParseFailure {
        match self {
            ParseError::InvalidDiceCount(s) => ParseFailure::InvalidDiceCount(s@),
            ParseError::InvalidSides(s) => ParseFailure::InvalidSides(s@),
            ParseError::NegativeDiceGroup => ParseFailure::NegativeDiceGroup,
            ParseError::NoDiceFound => ParseFailure::NoDiceFound,
            ParseError::InvalidToken(s) => ParseFailure::InvalidToken(s@),
        }
    }
}

/// The human-readable message of a parse failure.
pub open spec fn failure_message(e: ParseFailure) -> Seq<char> {
    match e {
        ParseFailure::InvalidDiceCount(s) => "invalid dice count: '"@ + s + "'"@,
        ParseFailure::InvalidSides(s) => "invalid sides: '"@ + s + "'"@,
        ParseFailure::NegativeDiceGroup => "negative dice groups are not supported"@,
        ParseFailure::NoDiceFound => "no dice found in expression"@,
        ParseFailure::InvalidToken(s) => "invalid token: '"@ + s + "'"@,
    }
}

impl ParseError {
    /// The human-readable message for this error.
    pub fn to_string(&self) -> (s: String)
        ensures
            s@ == failure_message(self@),
    {
        let mut out: Vec<char> = Vec::new();
        match self {
            ParseError::InvalidDiceCount(s) => {
                push_str(&mut out, "invalid dice count: '");
                push_str(&mut out, s.as_str());
                push_str(&mut out, "'");
            },
            ParseError::InvalidSides(s) => {
                push_str(&mut out, "invalid sides: '");
                push_str(&mut out, s.as_str());
                push_str(&mut out, "'");
            },
            ParseError::NegativeDiceGroup => {
                push_str(&mut out, "negative dice groups are not supported");
            },
            ParseError::NoDiceFound => {
                push_str(&mut out, "no dice found in expression");
            },
            ParseError::InvalidToken(s) => {
                push_str(&mut out, "invalid token: '");
                push_str(&mut out, s.as_str());
                push_str(&mut out, "'");
            },
        }
        assert(out@ =~= failure_message(self@));
        string_from_chars(&out)
    }
}

// ── Core types ───────────────────────────────────────────────────────────────

/// Keep rule applied to a dice group after rolling.
#[derive(Debug, Clone, Copy, PartialEq, Eq, Structural)]
pub enum Keep {
    /// Keep all dice (default).
    All,
    /// Keep only the N highest dice.
    Highest(u32),
    /// Keep only the N lowest dice.
    Lowest(u32),
}

/// Modifier applied to a dice roll (advantage, disadvantage, or none).
#[derive(Debug, Clone, Copy, PartialEq, Eq, Structural)]
pub enum Modifier {
    /// A single roll (no advantage or disadvantage).
    Normal,
    Advantage,
    Disadvantage,
}

/// A group of identical dice, e.g. `2d10` means 2 ten-sided dice.
#[derive(Debug, Clone, Copy, PartialEq, Eq, Structural)]
pub struct DiceGroup {
    pub count: u32,
    pub sides: u32,
    pub keep: Keep,
}

/// A parsed dice expression such as `adv 2d10+1d4+3`.
#[derive(Debug, Clone, PartialEq, Eq)]
pub struct DiceExpr {
    pub modifier: Modifier,
    pub groups: Vec<DiceGroup>,
    pub flat_bonus: i64,
}

/// The mathematical value of a [`DiceExpr`].
pub struct DiceExprView {
    pub modifier: Modifier,
    pub groups: Seq<DiceGroup>,
    pub flat_bonus: i64,
}

impl View for DiceExpr {
    type V = DiceExprView;

    open spec fn view(&self) -> DiceExprView {
        DiceExprView { modifier: self.modifier, groups: self.groups@, flat_bonus: self.flat_bonus }
    }
}

/// A group with at least one die of at least one side.
pub open spec fn group_well_formed(g: DiceGroup) -> bool {
    g.count >= 1 && g.sides >= 1
}

impl DiceExprView {
    /// What every successfully parsed expression satisfies: at least one dice
    /// group, and every group has at least one die of at least one side.
    pub open spec fn well_formed(self) -> bool {
        &&& self.groups.len() >= 1
        &&& forall|i: int| 0 <= i < self.groups.len() ==> group_well_formed(#[trigger] self.groups[i])
    }
}

// ── Canonical text ───────────────────────────────────────────────────────────

/// The text of a modifier, including its trailing space.
pub open spec fn modifier_text(m: Modifier) -> Seq<char> {
    match m {
        Modifier::Normal => Seq::empty(),
        Modifier::Advantage => seq!['a', 'd', 'v', ' '],
        Modifier::Disadvantage => seq!['d', 'i', 's', ' '],
    }
}

/// The text of a keep rule: empty, `khN` or `klN`.
pub open spec fn keep_text(k: Keep) -> Seq<char> {
    match k {
        Keep::All => Seq::empty(),
        Keep::Highest(n) => seq!['k', 'h'] + decimal(n as nat),
        Keep::Lowest(n) => seq!['k', 'l'] + decimal(n as nat),
    }
}

/// The text of one group, e.g. `4d6kh3`.
pub open spec fn group_text(g: DiceGroup) -> Seq<char> {
    decimal(g.count as nat) + seq!['d'] + decimal(g.sides as nat) + keep_text(g.keep)
}

/// The texts of the groups joined by `+`.
pub open spec fn groups_text(gs: Seq<DiceGroup>) -> Seq<char>
    decreases gs.len(),
{
    if gs.len() == 0 {
        Seq::empty()
    } else if gs.len() == 1 {
        group_text(gs[0])
    } else {
        group_text(gs[0]) + seq!['+'] + groups_text(gs.drop_first())
    }
}

/// The text of the flat bonus: empty for zero, `+N` or `-N` otherwise.
pub open spec fn bonus_text(b: int) -> Seq<char> {
    if b > 0 {
        seq!['+'] + decimal(b as nat)
    } else if b < 0 {
        seq!['-'] + decimal((-b) as nat)
    } else {
        Seq::empty()
    }
}

/// The canonical text of an expression, e.g. `adv 1d20+5`.
pub open spec fn expr_text(e: DiceExprView) -> Seq<char> {
    modifier_text(e.modifier) + groups_text(e.groups) + bonus_text(e.flat_bonus as int)
}

/// Adding a group at the end of a non-empty list adds `+` and its text.
pub proof fn lemma_groups_text_push(gs: Seq<DiceGroup>, g: DiceGroup)
    requires
        gs.len() >= 1,
    ensures
        groups_text(gs.push(g)) == groups_text(gs) + seq!['+'] + group_text(g),
    decreases gs.len(),
{
    assert(gs.push(g)[0] == gs[0]);
    if gs.len() == 1 {
        assert(gs.push(g).drop_first() =~= seq![g]);
        assert(groups_text(seq![g]) == group_text(g));
        assert(groups_text(gs) == group_text(gs[0]));
    } else {
        assert(gs.push(g).drop_first() =~= gs.drop_first().push(g));
        lemma_groups_text_push(gs.drop_first(), g);
        assert(groups_text(gs.push(g)) =~= groups_text(gs) + seq!['+'] + group_text(g));
    }
}

/// Appends the text of a group.
fn push_group_text(out: &mut Vec<char>, g: &DiceGroup)
    ensures
        final(out)@ == old(out)@ + group_text(*g),
{
    push_decimal(out, g.count as u128);
    out.push('d');
    push_decimal(out, g.sides as u128);
    match g.keep {
        Keep::All => {},
        Keep::Highest(n) => {
            out.push('k');
            out.push('h');
            push_decimal(out, n as u128);
        },
        Keep::Lowest(n) => {
            out.push('k');
            out.push('l');
            push_decimal(out, n as u128);
        },
    }
    assert(out@ =~= old(out)@ + group_text(*g));
}

impl DiceExpr {
    /// The canonical text of the expression, e.g. `adv 1d20+5` or `4d6kh3`.
    pub fn to_string(&self) -> (s: String)
        ensures
            s@ == expr_text(self@),
    {
        let mut out: Vec<char> = Vec::new();
        match self.modifier {
            Modifier::Advantage => push_str(&mut out, "adv "),
            Modifier::Disadvantage => push_str(&mut out, "dis "),
            Modifier::Normal => {},
        }
        proof {
            reveal_strlit("adv ");
            reveal_strlit("dis ");
        }
        assert(out@ =~= modifier_text(self.modifier));
        let mut i: usize = 0;
        while i < self.groups.len()
            invariant
                0 <= i <= self.groups.len(),
                out@ == modifier_text(self.modifier) + groups_text(self.groups@.take(i as int)),
            decreases self.groups.len() - i,
        {
            let ghost before = out@;
            if i > 0 {
                out.push('+');
            }
            push_group_text(&mut out, &self.groups[i]);
            proof {
                let gs = self.groups@.take(i as int);
                assert(self.groups@.take(i + 1) =~= gs.push(self.groups@[i as int]));
                if i > 0 {
                    lemma_groups_text_push(gs, self.groups@[i as int]);
                } else {
                    assert(gs.push(self.groups@[i as int]) =~= seq![self.groups@[i as int]]);
                }
                assert(out@ =~= modifier_text(self.modifier) + groups_text(
                    self.groups@.take(i + 1),
                ));
            }
            i = i + 1;
        }
        assert(self.groups@.take(self.groups.len() as int) =~= self.groups@);
        let ghost before = out@;
        if self.flat_bonus > 0 {
            out.push('+');
            push_decimal(&mut out, self.flat_bonus as u128);
        } else if self.flat_bonus < 0 {
            push_signed_decimal(&mut out, self.flat_bonus);
        }
        assert(out@ =~= expr_text(self@));
        string_from_chars(&out)
    }
}

} // verus!
