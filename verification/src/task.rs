//! The task model: a command template and its argument specifications.

use crate::decimal::{append_signed_decimal, signed_decimal};
use vstd::prelude::*;

verus! {

/// One way to fill an argument slot, as mathematics: the token handed to the
/// process, and the text that the choice adds to the display name.
pub struct Pick {
    pub token: Seq<char>,
    pub label: Seq<char>,
}

/// One way to fill an argument slot.
#[derive(Debug, Clone, PartialEq, Eq)]
pub struct Alternative {
    /// The token handed to the process.
    pub token: String,
    /// What the choice adds to the display name: empty for a fixed argument,
    /// a space and the selected value otherwise.
    pub label: String,
}

impl View for Alternative {
    type V = Pick;

    open spec fn view(&self) -> Pick {
        Pick { token: self.token@, label: self.label@ }
    }
}

/// A numeric sweep.
#[derive(Debug, Clone, PartialEq, Eq)]
pub enum RangeObject {
    /// The integers `from`, `from + step`, `from + 2 * step`, ... up to and
    /// including `to`.
    Int { from: i32, to: i32, step: i32, prefix: Option<String> },
    /// A sweep over fractional numbers. The library does no floating-point
    /// arithmetic: `values` holds the swept numbers in ascending order, each
    /// already rendered as text.
    Float { values: Vec<String>, prefix: Option<String> },
}

/// One argument slot of a task.
#[derive(Debug, Clone, PartialEq, Eq)]
pub enum Argument {
    /// A fixed token. It never branches and does not show in the display name.
    Static(String),
    /// A numeric sweep: one branch per value, ascending.
    Range(RangeObject),
    /// One branch per listed value, in list order.
    Choice(Vec<String>),
}

/// A command template: the executable and its argument slots, in the order in
/// which the tokens are passed and the cross product is walked.
#[derive(Debug, Clone, PartialEq, Eq)]
pub struct Task {
    pub command: String,
    pub args: Vec<Argument>,
}

/// The text of an optional prefix: empty when there is none.
pub open spec fn prefix_view(prefix: Option<String>) -> Seq<char> {
    match prefix {
        Some(p) => p@,
        None => Seq::empty(),
    }
}

/// How many integers the sweep `from, from + step, ...` holds up to `to`:
/// `floor((to - from) / step) + 1` for a positive step and `from <= to`,
/// otherwise none.
pub open spec fn int_range_len(from: int, to: int, step: int) -> nat {
    if step > 0 && from <= to {
        ((to - from) / step + 1) as nat
    } else {
        0
    }
}

/// The pick for the `k`-th integer of a sweep: the token is the prefix and
/// the numeral, the label a space and the numeral.
pub open spec fn int_pick(from: int, step: int, prefix: Seq<char>, k: int) -> Pick {
    let numeral = signed_decimal(from + k * step);
    Pick { token: prefix + numeral, label: seq![' '] + numeral }
}

/// The pick for a listed or pre-rendered value: the token is the prefix and
/// the value, the label a space and the value.
pub open spec fn text_pick(prefix: Seq<char>, value: Seq<char>) -> Pick {
    Pick { token: prefix + value, label: seq![' '] + value }
}

/// The views of a list of alternatives.
pub open spec fn alternatives_view(alts: Seq<Alternative>) -> Seq<Pick> {
    Seq::new(alts.len(), |i: int| alts[i]@)
}

impl RangeObject {
    /// An integer sweep with `from <= to` needs a positive step: with any other
    /// step the enumeration would never pass `to`.
    pub open spec fn well_formed(&self) -> bool {
        match self {
            RangeObject::Int { from, to, step, .. } => *from <= *to ==> *step > 0,
            RangeObject::Float { .. } => true,
        }
    }

    /// How many values the sweep holds.
    pub open spec fn cardinality(&self) -> nat {
        match self {
            RangeObject::Int { from, to, step, .. } => int_range_len(
                *from as int,
                *to as int,
                *step as int,
            ),
            RangeObject::Float { values, .. } => values@.len(),
        }
    }

    /// The picks of the sweep, ascending.
    pub open spec fn picks(&self) -> Seq<Pick> {
        match self {
            RangeObject::Int { from, to, step, prefix } => Seq::new(
                int_range_len(*from as int, *to as int, *step as int),
                |k: int| int_pick(*from as int, *step as int, prefix_view(*prefix), k),
            ),
            RangeObject::Float { values, prefix } => Seq::new(
                values@.len(),
                |k: int| text_pick(prefix_view(*prefix), values@[k]@),
            ),
        }
    }
}

impl Argument {
    /// Every argument is well formed but an integer sweep that could not end.
    pub open spec fn well_formed(&self) -> bool {
        match self {
            Argument::Range(range) => range.well_formed(),
            _ => true,
        }
    }

    /// How many ways there are to fill the slot: one for a fixed token, the
    /// length of the list for a choice, the number of values for a sweep.
    pub open spec fn cardinality(&self) -> nat {
        match self {
            Argument::Static(_) => 1,
            Argument::Range(range) => range.cardinality(),
            Argument::Choice(values) => values@.len(),
        }
    }

    /// The ways to fill the slot, in branching order.
    pub open spec fn picks(&self) -> Seq<Pick> {
        match self {
            Argument::Static(value) => seq![Pick { token: value@, label: Seq::empty() }],
            Argument::Range(range) => range.picks(),
            Argument::Choice(values) => Seq::new(
                values@.len(),
                |k: int| text_pick(Seq::empty(), values@[k]@),
            ),
        }
    }

    /// An argument has as many picks as its cardinality says.
    pub proof fn lemma_picks_len(&self)
        ensures
            self.picks().len() == self.cardinality(),
    {
    }
}

/// A quotient is pinned by the two multiples that enclose the dividend.
proof fn lemma_quotient(x: int, d: int, q: int)
    requires
        d > 0,
        q * d <= x < (q + 1) * d,
    ensures
        x / d == q,
{
    assert((q + 1) * d == q * d + d) by (nonlinear_arith);
    vstd::arithmetic::div_mod::lemma_fundamental_div_mod_converse(x, d, q, x - q * d);
}

/// The prefix as an owned string, empty when there is none.
fn prefix_string(prefix: &Option<String>) -> (s: String)
    ensures
        s@ == prefix_view(*prefix),
{
    match prefix {
        Some(p) => p.clone(),
        None => String::new(),
    }
}

/// The alternative for a listed or pre-rendered value.
fn text_alternative(prefix: &Option<String>, value: &String) -> (alt: Alternative)
    ensures
        alt@ == text_pick(prefix_view(*prefix), value@),
{
    let mut token = prefix_string(prefix);
    token.append(value.as_str());
    proof {
        reveal_strlit(" ");
    }
    let mut label = String::from_str(" ");
    assert(label@ =~= seq![' ']);
    label.append(value.as_str());
    Alternative { token, label }
}

/// One alternative per value of a list, in order.
fn text_alternatives(prefix: &Option<String>, values: &Vec<String>) -> (alts: Vec<Alternative>)
    ensures
        alternatives_view(alts@) == Seq::new(
            values@.len(),
            |k: int| text_pick(prefix_view(*prefix), values@[k]@),
        ),
{
    let mut alts: Vec<Alternative> = Vec::new();
    let mut i: usize = 0;
    while i < values.len()
        invariant
            i <= values.len(),
            alts@.len() == i,
            forall|k: int|
                0 <= k < i ==> (#[trigger] alts@[k])@ == text_pick(
                    prefix_view(*prefix),
                    values@[k]@,
                ),
        decreases values.len() - i,
    {
        alts.push(text_alternative(prefix, &values[i]));
        i = i + 1;
    }
    assert(alternatives_view(alts@) =~= Seq::new(
        values@.len(),
        |k: int| text_pick(prefix_view(*prefix), values@[k]@),
    ));
    alts
}

/// One alternative per integer of a sweep that ends, ascending.
fn int_alternatives(from: i32, to: i32, step: i32, prefix: &Option<String>) -> (alts: Vec<
    Alternative,
>)
    requires
        from <= to ==> step > 0,
    ensures
        alternatives_view(alts@) == Seq::new(
            int_range_len(from as int, to as int, step as int),
            |k: int| int_pick(from as int, step as int, prefix_view(*prefix), k),
        ),
{
    let mut alts: Vec<Alternative> = Vec::new();
    if from <= to {
        // The counter is wider than the bounds, so the step past `to` cannot
        // overflow.
        let mut c: i64 = from as i64;
        assert(alts@.len() * step == 0) by (nonlinear_arith)
            requires
                alts@.len() == 0,
        ;
        while c <= to as i64
            invariant
                step > 0,
                from <= to,
                c == from + alts@.len() * step,
                alts@.len() == 0 || c - step <= to,
                forall|k: int|
                    0 <= k < alts@.len() ==> (#[trigger] alts@[k])@ == int_pick(
                        from as int,
                        step as int,
                        prefix_view(*prefix),
                        k,
                    ),
            decreases to - c + step,
        {
            let mut token = prefix_string(prefix);
            append_signed_decimal(&mut token, c);
            proof {
                reveal_strlit(" ");
            }
            let mut label = String::from_str(" ");
            assert(label@ =~= seq![' ']);
            append_signed_decimal(&mut label, c);
            let ghost k = alts@.len() as int;
            alts.push(Alternative { token, label });
            assert((k + 1) * step == k * step + step) by (nonlinear_arith);
            c = c + step as i64;
        }
        proof {
            let n = alts@.len() as int;
            assert(n > 0);
            assert((n - 1) * step == n * step - step) by (nonlinear_arith);
            assert(((n - 1) + 1) * step == n * step);
            lemma_quotient(to - from, step as int, n - 1);
        }
    }
    assert(alternatives_view(alts@) =~= Seq::new(
        int_range_len(from as int, to as int, step as int),
        |k: int| int_pick(from as int, step as int, prefix_view(*prefix), k),
    ));
    alts
}

impl RangeObject {
    /// The values of the sweep as alternatives, ascending; `None` for an
    /// integer sweep that could not end.
    pub fn alternatives(&self) -> (alts: Option<Vec<Alternative>>)
        ensures
            match alts {
                Some(a) => self.well_formed() && alternatives_view(a@) == self.picks(),
                None => !self.well_formed(),
            },
    {
        match self {
            RangeObject::Int { from, to, step, prefix } => {
                if *from <= *to && *step <= 0 {
                    None
                } else {
                    Some(int_alternatives(*from, *to, *step, prefix))
                }
            },
            RangeObject::Float { values, prefix } => Some(text_alternatives(prefix, values)),
        }
    }
}

impl Argument {
    /// The ways to fill the slot, in branching order; `None` for an integer
    /// sweep that could not end.
    pub fn alternatives(&self) -> (alts: Option<Vec<Alternative>>)
        ensures
            match alts {
                Some(a) => self.well_formed() && alternatives_view(a@) == self.picks(),
                None => !self.well_formed(),
            },
    {
        match self {
            Argument::Static(value) => {
                let mut a: Vec<Alternative> = Vec::new();
                a.push(Alternative { token: value.clone(), label: String::new() });
                assert(alternatives_view(a@) =~= self.picks());
                Some(a)
            },
            Argument::Range(range) => range.alternatives(),
            Argument::Choice(values) => {
                let none: Option<String> = None;
                let a = text_alternatives(&none, values);
                assert(forall|k: int|
                    0 <= k < values@.len() ==> Seq::<char>::empty() + values@[k]@
                        =~= values@[k]@);
                assert(alternatives_view(a@) =~= self.picks());
                Some(a)
            },
        }
    }
}

} // verus!
