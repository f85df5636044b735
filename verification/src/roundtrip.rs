//! The parser reads the canonical text of an expression back as that
//! expression.

use vstd::prelude::*;

use crate::expr::{
    DiceExprView, DiceGroup, Keep, Modifier, bonus_text, expr_text,
    group_text, group_well_formed, groups_text, keep_text, modifier_text,
};
use crate::parse::{
    ParseOutcome, char_index, dice_part, dice_term, fold_terms, is_sep, keep_split, pair_index, parse_text,
    signed_tokens, split_modifier, lemma_sep_index_at,
};
use crate::text::{
    all_digits, decimal, is_digit, is_white_space, lemma_decimal, lemma_parse_i64_decimal,
    lemma_parse_u32_decimal, lemma_trim_unchanged, parse_i64_text, trim_start,
};

verus! {

/// The characters that occur in the text of a dice group.
pub open spec fn group_char(c: char) -> bool {
    is_digit(c) || c == 'd' || c == 'k' || c == 'h' || c == 'l'
}

/// Every character of `s` occurs in group texts.
pub open spec fn all_group_chars(s: Seq<char>) -> bool {
    forall|i: int| 0 <= i < s.len() ==> group_char(#[trigger] s[i])
}

proof fn lemma_concat_group_chars(a: Seq<char>, b: Seq<char>)
    requires
        all_group_chars(a),
        all_group_chars(b),
    ensures
        all_group_chars(a + b),
{
    assert forall|i: int| 0 <= i < (a + b).len() implies group_char(#[trigger] (a + b)[i]) by {
        if i < a.len() {
            assert((a + b)[i] == a[i]);
        } else {
            assert((a + b)[i] == b[i - a.len()]);
        }
    }
}

proof fn lemma_decimal_group_chars(n: nat)
    ensures
        all_group_chars(decimal(n)),
        decimal(n).len() > 0,
        is_digit(decimal(n)[0]),
        is_digit(decimal(n).last()),
{
    lemma_decimal(n);
    assert(is_digit(decimal(n)[decimal(n).len() - 1]));
}

proof fn lemma_decimal_no_sep(n: nat)
    ensures
        forall|i: int| 0 <= i < decimal(n).len() ==> !is_sep(#[trigger] decimal(n)[i]),
        !is_white_space(decimal(n)[0]),
        !is_white_space(decimal(n).last()),
{
    lemma_decimal(n);
    assert forall|i: int| 0 <= i < decimal(n).len() implies !is_sep(#[trigger] decimal(n)[i]) by {
        assert(is_digit(decimal(n)[i]));
    }
    assert(is_digit(decimal(n)[decimal(n).len() - 1]));
}

/// No `c` occurs in `t`.
pub open spec fn lacks(t: Seq<char>, c: char) -> bool {
    forall|i: int| 0 <= i < t.len() ==> t[i] != c
}

proof fn lemma_pair_index_absent(t: Seq<char>, a: char, b: char)
    requires
        lacks(t, a),
    ensures
        pair_index(t, a, b) is None,
    decreases t.len(),
{
    if t.len() >= 2 {
        assert(t[0] != a);
        assert(lacks(t.drop_first(), a)) by {
            assert forall|i: int| 0 <= i < t.drop_first().len() implies t.drop_first()[i] != a by {
                assert(t.drop_first()[i] == t[i + 1]);
            }
        }
        lemma_pair_index_absent(t.drop_first(), a, b);
    }
}

proof fn lemma_pair_index_concat(x: Seq<char>, y: Seq<char>, a: char, b: char)
    requires
        lacks(x, a),
        y.len() >= 2,
        y[0] == a,
        y[1] == b,
    ensures
        pair_index(x + y, a, b) == Some(x.len()),
    decreases x.len(),
{
    if x.len() == 0 {
        assert(x + y =~= y);
    } else {
        assert(x[0] != a);
        assert((x + y)[0] == x[0]);
        assert((x + y).drop_first() =~= x.drop_first() + y);
        assert(lacks(x.drop_first(), a)) by {
            assert forall|i: int| 0 <= i < x.drop_first().len() implies x.drop_first()[i] != a by {
                assert(x.drop_first()[i] == x[i + 1]);
            }
        }
        lemma_pair_index_concat(x.drop_first(), y, a, b);
    }
}

proof fn lemma_char_index_concat(x: Seq<char>, y: Seq<char>, c: char)
    requires
        lacks(x, c),
        y.len() >= 1,
        y[0] == c,
    ensures
        char_index(x + y, c) == Some(x.len()),
    decreases x.len(),
{
    if x.len() == 0 {
        assert(x + y =~= y);
    } else {
        assert(x[0] != c);
        assert((x + y)[0] == x[0]);
        assert((x + y).drop_first() =~= x.drop_first() + y);
        assert(lacks(x.drop_first(), c)) by {
            assert forall|i: int| 0 <= i < x.drop_first().len() implies x.drop_first()[i] != c by {
                assert(x.drop_first()[i] == x[i + 1]);
            }
        }
        lemma_char_index_concat(x.drop_first(), y, c);
    }
}

/// What a group text looks like character by character.
proof fn lemma_group_text_shape(g: DiceGroup)
    ensures
        group_text(g).len() > 0,
        all_group_chars(group_text(g)),
        is_digit(group_text(g)[0]),
        is_digit(group_text(g).last()),
        group_text(g).contains('d'),
{
    let c = decimal(g.count as nat);
    let s = decimal(g.sides as nat);
    let k = keep_text(g.keep);
    lemma_decimal_group_chars(g.count as nat);
    lemma_decimal_group_chars(g.sides as nat);
    let head = c + seq!['d'] + s;
    lemma_concat_group_chars(c, seq!['d']);
    lemma_concat_group_chars(c + seq!['d'], s);
    match g.keep {
        Keep::All => {
            assert(k =~= Seq::<char>::empty());
        },
        Keep::Highest(n) => {
            lemma_decimal_group_chars(n as nat);
            lemma_concat_group_chars(seq!['k', 'h'], decimal(n as nat));
        },
        Keep::Lowest(n) => {
            lemma_decimal_group_chars(n as nat);
            lemma_concat_group_chars(seq!['k', 'l'], decimal(n as nat));
        },
    }
    lemma_concat_group_chars(head, k);
    let t = group_text(g);
    assert(t =~= head + k);
    assert(t[0] == c[0]);
    assert(t[c.len() as int] == 'd');
    if k.len() > 0 {
        assert(t.last() == k.last());
        match g.keep {
            Keep::All => {},
            Keep::Highest(n) => {
                assert(k.last() == decimal(n as nat).last());
            },
            Keep::Lowest(n) => {
                assert(k.last() == decimal(n as nat).last());
            },
        }
    } else {
        assert(t.last() == s.last());
    }
}

/// A digit run holds no letter.
proof fn lemma_digits_lack(t: Seq<char>, c: char)
    requires
        all_digits(t),
        !is_digit(c),
    ensures
        lacks(t, c),
{
    assert forall|i: int| 0 <= i < t.len() implies t[i] != c by {
        assert(is_digit(t[i]));
    }
}

/// The dice part of a group text, before any keep suffix.
pub open spec fn dice_text(g: DiceGroup) -> Seq<char> {
    decimal(g.count as nat) + seq!['d'] + decimal(g.sides as nat)
}

proof fn lemma_dice_text_lacks(g: DiceGroup, x: char)
    requires
        x == 'k' || x == 'h',
    ensures
        lacks(dice_text(g), x),
{
    let c = decimal(g.count as nat);
    let s = decimal(g.sides as nat);
    lemma_decimal(g.count as nat);
    lemma_decimal(g.sides as nat);
    lemma_digits_lack(c, x);
    lemma_digits_lack(s, x);
    let d = dice_text(g);
    assert forall|i: int| 0 <= i < d.len() implies d[i] != x by {
        if i < c.len() {
            assert(d[i] == c[i]);
        } else if i > c.len() {
            assert(d[i] == s[i - c.len() - 1]);
        } else {
            assert(d[i] == 'd');
        }
    }
}

/// The parser reads count and sides back from a dice part.
proof fn lemma_dice_part_text(g: DiceGroup)
    requires
        group_well_formed(g),
    ensures
        dice_part(dice_text(g), g.keep) == Ok::<DiceGroup, crate::expr::ParseFailure>(g),
{
    let c = decimal(g.count as nat);
    let s = decimal(g.sides as nat);
    let d = dice_text(g);
    lemma_decimal(g.count as nat);
    lemma_digits_lack(c, 'd');
    lemma_char_index_concat(c, seq!['d'] + s, 'd');
    assert(d =~= c + (seq!['d'] + s));
    assert(d.take(c.len() as int) =~= c);
    assert(d.skip(c.len() + 1int) =~= s);
    lemma_parse_u32_decimal(g.count as nat);
    lemma_parse_u32_decimal(g.sides as nat);
}

/// The keep suffix of a group text is read back with its dice part.
proof fn lemma_keep_split_text(g: DiceGroup)
    ensures
        keep_split(group_text(g)) == Ok::<(Seq<char>, Keep), crate::expr::ParseFailure>(
            (dice_text(g), g.keep),
        ),
{
    let d = dice_text(g);
    let t = group_text(g);
    lemma_dice_text_lacks(g, 'k');
    lemma_dice_text_lacks(g, 'h');
    match g.keep {
        Keep::All => {
            assert(t =~= d);
            lemma_pair_index_absent(t, 'k', 'h');
            lemma_pair_index_absent(t, 'k', 'l');
        },
        Keep::Highest(n) => {
            lemma_parse_u32_decimal(n as nat);
            let y = seq!['k', 'h'] + decimal(n as nat);
            assert(t =~= d + y);
            lemma_pair_index_concat(d, y, 'k', 'h');
            assert(t.skip(d.len() + 2int) =~= decimal(n as nat));
            assert(t.take(d.len() as int) =~= d);
        },
        Keep::Lowest(n) => {
            lemma_decimal(n as nat);
            lemma_parse_u32_decimal(n as nat);
            let y = seq!['k', 'l'] + decimal(n as nat);
            assert(t =~= d + y);
            lemma_digits_lack(decimal(n as nat), 'h');
            assert(lacks(t, 'h')) by {
                assert forall|i: int| 0 <= i < t.len() implies t[i] != 'h' by {
                    if i < d.len() {
                        assert(t[i] == d[i]);
                    } else if i >= d.len() + 2 {
                        assert(t[i] == decimal(n as nat)[i - d.len() - 2]);
                    }
                }
            }
            lemma_pair_index_absent_second(t, 'k', 'h');
            lemma_pair_index_concat(d, y, 'k', 'l');
            assert(t.skip(d.len() + 2int) =~= decimal(n as nat));
            assert(t.take(d.len() as int) =~= d);
        },
    }
}

/// The parser reads a well-formed group back from its text.
proof fn lemma_dice_term_group_text(g: DiceGroup)
    requires
        group_well_formed(g),
    ensures
        dice_term(group_text(g)) == Ok::<DiceGroup, crate::expr::ParseFailure>(g),
{
    lemma_keep_split_text(g);
    lemma_dice_part_text(g);
}

/// No pair `a` `b` occurs where `b` does not occur.
proof fn lemma_pair_index_absent_second(t: Seq<char>, a: char, b: char)
    requires
        lacks(t, b),
    ensures
        pair_index(t, a, b) is None,
    decreases t.len(),
{
    if t.len() >= 2 {
        assert(t[1] != b);
        assert(lacks(t.drop_first(), b)) by {
            assert forall|i: int| 0 <= i < t.drop_first().len() implies t.drop_first()[i] != b by {
                assert(t.drop_first()[i] == t[i + 1]);
            }
        }
        lemma_pair_index_absent_second(t.drop_first(), a, b);
    }
}

/// A term free of separators that neither starts nor ends with whitespace,
/// followed by a separator, is split off as one token.
proof fn lemma_tokens_head(x: Seq<char>, sep: char, y: Seq<char>, sign: i64)
    requires
        x.len() > 0,
        forall|i: int| 0 <= i < x.len() ==> !is_sep(#[trigger] x[i]),
        !is_white_space(x[0]),
        !is_white_space(x.last()),
        is_sep(sep),
    ensures
        signed_tokens(x + seq![sep] + y, sign) == seq![(sign, x)] + signed_tokens(
            y,
            if sep == '-' {
                -1i64
            } else {
                1i64
            },
        ),
{
    let s = x + seq![sep] + y;
    assert forall|k: int| 0 <= k < x.len() implies !is_sep(#[trigger] s[k]) by {
        assert(s[k] == x[k]);
    }
    assert(s[x.len() as int] == sep);
    lemma_sep_index_at(s, x.len() as int);
    assert(s.take(x.len() as int) =~= x);
    assert(s.skip(x.len() + 1int) =~= y);
    lemma_trim_unchanged(x);
}

/// A lone term free of separators is one token.
proof fn lemma_tokens_last(x: Seq<char>, sign: i64)
    requires
        x.len() > 0,
        forall|i: int| 0 <= i < x.len() ==> !is_sep(#[trigger] x[i]),
        !is_white_space(x[0]),
        !is_white_space(x.last()),
    ensures
        signed_tokens(x, sign) == seq![(sign, x)],
{
    lemma_sep_index_at(x, x.len() as int);
    lemma_trim_unchanged(x);
}

/// The tokens of the flat bonus text.
pub open spec fn bonus_tokens(b: int) -> Seq<(i64, Seq<char>)> {
    if b > 0 {
        seq![(1i64, decimal(b as nat))]
    } else if b < 0 {
        seq![(-1i64, decimal((-b) as nat))]
    } else {
        Seq::empty()
    }
}

/// The tokens of the group texts.
pub open spec fn group_tokens(gs: Seq<DiceGroup>) -> Seq<(i64, Seq<char>)> {
    gs.map_values(|g: DiceGroup| (1i64, group_text(g)))
}

proof fn lemma_group_no_sep(g: DiceGroup)
    ensures
        forall|i: int| 0 <= i < group_text(g).len() ==> !is_sep(#[trigger] group_text(g)[i]),
        !is_white_space(group_text(g)[0]),
        !is_white_space(group_text(g).last()),
        group_text(g).len() > 0,
{
    lemma_group_text_shape(g);
    assert forall|i: int| 0 <= i < group_text(g).len() implies !is_sep(
        #[trigger] group_text(g)[i],
    ) by {
        assert(group_char(group_text(g)[i]));
    }
}

/// The body of an expression text splits into its group and bonus tokens.
proof fn lemma_body_tokens(gs: Seq<DiceGroup>, b: int)
    requires
        gs.len() >= 1,
    ensures
        signed_tokens(groups_text(gs) + bonus_text(b), 1) == group_tokens(gs) + bonus_tokens(b),
    decreases gs.len(),
{
    let g = gs[0];
    lemma_group_no_sep(g);
    let x = group_text(g);
    if gs.len() == 1 {
        assert(groups_text(gs) == x);
        assert(group_tokens(gs) =~= seq![(1i64, x)]);
        if b > 0 {
            lemma_decimal_group_chars(b as nat);
            lemma_decimal_no_sep(b as nat);
            lemma_tokens_head(x, '+', decimal(b as nat), 1);
            assert(x + bonus_text(b) =~= x + seq!['+'] + decimal(b as nat));
            lemma_tokens_last(decimal(b as nat), 1);
        } else if b < 0 {
            lemma_decimal_group_chars((-b) as nat);
            lemma_decimal_no_sep((-b) as nat);
            lemma_tokens_head(x, '-', decimal((-b) as nat), 1);
            assert(x + bonus_text(b) =~= x + seq!['-'] + decimal((-b) as nat));
            lemma_tokens_last(decimal((-b) as nat), -1i64);
        } else {
            assert(x + bonus_text(b) =~= x);
            lemma_tokens_last(x, 1);
        }
    } else {
        let rest = gs.drop_first();
        let tail = groups_text(rest) + bonus_text(b);
        assert(groups_text(gs) + bonus_text(b) =~= x + seq!['+'] + tail);
        lemma_tokens_head(x, '+', tail, 1);
        lemma_body_tokens(rest, b);
        assert(group_tokens(gs) =~= seq![(1i64, x)] + group_tokens(rest));
    }
}

/// Dice terms read from group texts add their groups in order.
proof fn lemma_fold_groups(
    gs: Seq<DiceGroup>,
    rest: Seq<(i64, Seq<char>)>,
    m: Modifier,
    acc: Seq<DiceGroup>,
)
    requires
        forall|i: int| 0 <= i < gs.len() ==> group_well_formed(#[trigger] gs[i]),
    ensures
        fold_terms(group_tokens(gs) + rest, m, acc, 0) == fold_terms(rest, m, acc + gs, 0),
    decreases gs.len(),
{
    if gs.len() == 0 {
        assert(group_tokens(gs) + rest =~= rest);
        assert(acc + gs =~= acc);
    } else {
        let g = gs[0];
        assert(group_well_formed(gs[0]));
        lemma_group_text_shape(g);
        lemma_dice_term_group_text(g);
        let toks = group_tokens(gs) + rest;
        assert(toks[0] == (1i64, group_text(g)));
        assert(toks.drop_first() =~= group_tokens(gs.drop_first()) + rest);
        assert forall|i: int| 0 <= i < gs.drop_first().len() implies group_well_formed(
            #[trigger] gs.drop_first()[i],
        ) by {
            assert(gs.drop_first()[i] == gs[i + 1]);
        }
        lemma_fold_groups(gs.drop_first(), rest, m, acc.push(g));
        assert(acc.push(g) + gs.drop_first() =~= acc + gs);
    }
}

/// The body of a well-formed expression text starts with a digit.
proof fn lemma_body_start(gs: Seq<DiceGroup>, b: int)
    requires
        gs.len() >= 1,
    ensures
        (groups_text(gs) + bonus_text(b)).len() > 0,
        is_digit((groups_text(gs) + bonus_text(b))[0]),
{
    lemma_group_text_shape(gs[0]);
    if gs.len() > 1 {
        assert(groups_text(gs) =~= group_text(gs[0]) + (seq!['+'] + groups_text(gs.drop_first())));
    }
    assert((groups_text(gs) + bonus_text(b))[0] == groups_text(gs)[0]);
}

/// The modifier text is read back, leaving the body.
proof fn lemma_split_modifier_text(m: Modifier, body: Seq<char>)
    requires
        body.len() > 0,
        is_digit(body[0]),
    ensures
        split_modifier(modifier_text(m) + body) == (m, body),
{
    let text = modifier_text(m) + body;
    match m {
        Modifier::Normal => {
            assert(text =~= body);
            if text.len() >= 3 {
                assert(text.take(3)[0] == text[0]);
                assert(seq!['a', 'd', 'v'][0] == 'a');
                assert(seq!['d', 'i', 's'][0] == 'd');
                assert(text.take(3) != seq!['a', 'd', 'v']);
                assert(text.take(3) != seq!['d', 'i', 's']);
            }
            assert(split_modifier(text) == (Modifier::Normal, text));
        },
        Modifier::Advantage => {
            assert(text.take(3) =~= seq!['a', 'd', 'v']);
            assert(text.skip(3) =~= seq![' '] + body);
            assert((seq![' '] + body).drop_first() =~= body);
            assert(trim_start(body) == body);
            assert(trim_start(seq![' '] + body) == trim_start(body));
        },
        Modifier::Disadvantage => {
            assert(text.take(3) =~= seq!['d', 'i', 's']);
            assert(text.skip(3) =~= seq![' '] + body);
            assert((seq![' '] + body).drop_first() =~= body);
            assert(trim_start(body) == body);
            assert(trim_start(seq![' '] + body) == trim_start(body));
        },
    }
}

/// The bonus token, folded after the groups, sets the flat bonus.
proof fn lemma_fold_bonus(m: Modifier, gs: Seq<DiceGroup>, b: i64)
    requires
        gs.len() >= 1,
        b != i64::MIN,
    ensures
        fold_terms(bonus_tokens(b as int), m, gs, 0) == ParseOutcome::Parsed(
            DiceExprView { modifier: m, groups: gs, flat_bonus: b },
        ),
{
    let bt = bonus_tokens(b as int);
    if b > 0 {
        lemma_decimal(b as nat);
        lemma_parse_i64_decimal(b as nat);
        assert(bt.len() == 1 && bt[0] == (1i64, decimal(b as nat)));
        assert(parse_i64_text(decimal(b as nat)) == Some(b));
        lemma_digits_lack(decimal(b as nat), 'd');
        assert(!bt[0].1.contains('d'));
        assert(bt.len() > 0);
        assert(bt[0].0 == 1i64);
        let val = parse_i64_text(bt[0].1).unwrap();
        assert(val == b);
        let sgn = bt[0].0;
        assert(sgn * val == val) by (nonlinear_arith)
            requires
                sgn == 1,
        ;
        assert(fold_terms(bt, m, gs, 0) == fold_terms(bt.drop_first(), m, gs, b as int));
        assert(bt.drop_first() =~= Seq::<(i64, Seq<char>)>::empty());
        assert(fold_terms(Seq::empty(), m, gs, b as int) == ParseOutcome::Parsed(
            DiceExprView { modifier: m, groups: gs, flat_bonus: b },
        ));
    } else if b < 0 {
        lemma_decimal((-b) as nat);
        lemma_parse_i64_decimal((-b) as nat);
        assert(bt.len() == 1 && bt[0] == (-1i64, decimal((-b) as nat)));
        assert(parse_i64_text(decimal((-b) as nat)) == Some((-b) as i64));
        lemma_digits_lack(decimal((-b) as nat), 'd');
        assert(!bt[0].1.contains('d'));
        let sgn = bt[0].0;
        let val = parse_i64_text(bt[0].1).unwrap();
        assert(val == -b);
        assert(sgn * val == b) by (nonlinear_arith)
            requires
                sgn == -1,
                val == -b,
        ;
        assert(fold_terms(bt, m, gs, 0) == fold_terms(bt.drop_first(), m, gs, b as int));
        assert(bt.drop_first() =~= Seq::<(i64, Seq<char>)>::empty());
        assert(fold_terms(Seq::empty(), m, gs, b as int) == ParseOutcome::Parsed(
            DiceExprView { modifier: m, groups: gs, flat_bonus: b },
        ));
    } else {
        assert(bt =~= Seq::<(i64, Seq<char>)>::empty());
        assert(fold_terms(bt, m, gs, 0) == ParseOutcome::Parsed(
            DiceExprView { modifier: m, groups: gs, flat_bonus: b },
        ));
    }
}

/// Parsing the canonical text of a well-formed expression gives the
/// expression back, unless its flat bonus is `i64::MIN`, whose magnitude no
/// `i64` term can write.
pub proof fn law_text_round_trip(e: DiceExprView)
    requires
        e.well_formed(),
        e.flat_bonus != i64::MIN,
    ensures
        parse_text(expr_text(e)) == ParseOutcome::Parsed(e),
{
    let gs = e.groups;
    let b = e.flat_bonus as int;
    let body = groups_text(gs) + bonus_text(b);
    lemma_body_start(gs, b);
    assert(expr_text(e) =~= modifier_text(e.modifier) + body);
    lemma_split_modifier_text(e.modifier, body);
    lemma_body_tokens(gs, b);
    assert forall|i: int| 0 <= i < gs.len() implies group_well_formed(#[trigger] gs[i]) by {}
    lemma_fold_groups(gs, bonus_tokens(b), e.modifier, Seq::empty());
    assert(Seq::<DiceGroup>::empty() + gs =~= gs);
    lemma_fold_bonus(e.modifier, gs, e.flat_bonus);
}

} // verus!
