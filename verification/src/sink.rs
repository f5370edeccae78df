//! The result sink's record format: one line of text per finished invocation.

use crate::decimal::{
    append_decimal, append_fixed_decimal, decimal, digit_char, fixed_decimal,
    lemma_decimal_value, lemma_fixed_decimal_value, numeral_value, pow10,
};
use vstd::prelude::*;

verus! {

/// How an invocation ended.
#[derive(Debug, Clone, Copy, PartialEq, Eq)]
pub enum Outcome {
    /// The process ran and exited; `nanos` is the wall-clock time from launch
    /// to exit, in nanoseconds.
    Finished { nanos: u128 },
    /// The process could not be launched.
    SpawnFailed,
    /// The process was launched, but its exit could not be observed.
    WaitFailed,
}

/// Nanoseconds in a second.
pub open spec fn nanos_per_second() -> nat {
    1_000_000_000
}

/// A duration as text: whole seconds, a point, nine digits of nanoseconds,
/// and the unit, as in `"0.001500000s"`.
pub open spec fn duration_text(nanos: nat) -> Seq<char> {
    decimal(nanos / nanos_per_second()) + seq!['.'] + fixed_decimal(
        nanos % nanos_per_second(),
        9,
    ) + seq!['s']
}

/// What a record says of an outcome: the duration of a run, or which step
/// failed.
pub open spec fn outcome_text(outcome: Outcome) -> Seq<char> {
    match outcome {
        Outcome::Finished { nanos } => duration_text(nanos as nat),
        Outcome::SpawnFailed => "spawn failed"@,
        Outcome::WaitFailed => "wait failed"@,
    }
}

/// The record of one invocation: its display name, a colon and a space, the
/// outcome, and a line feed.
pub open spec fn record_text(name: Seq<char>, outcome: Outcome) -> Seq<char> {
    name + seq![':', ' '] + outcome_text(outcome) + seq!['\n']
}

/// Renders the record of the invocation `name` that ended with `outcome`.
pub fn record_line(name: &str, outcome: &Outcome) -> (line: String)
    ensures
        line@ == record_text(name@, *outcome),
{
    proof {
        reveal_strlit(": ");
        reveal_strlit(".");
        reveal_strlit("s");
        reveal_strlit("\n");
    }
    let mut line = String::from_str(name);
    line.append(": ");
    assert(": "@ =~= seq![':', ' ']);
    match outcome {
        Outcome::Finished { nanos } => {
            append_decimal(&mut line, *nanos / 1_000_000_000);
            line.append(".");
            assert("."@ =~= seq!['.']);
            append_fixed_decimal(&mut line, *nanos % 1_000_000_000, 9);
            line.append("s");
            assert("s"@ =~= seq!['s']);
            assert(line@ =~= name@ + seq![':', ' '] + duration_text(*nanos as nat));
        },
        Outcome::SpawnFailed => {
            line.append("spawn failed");
        },
        Outcome::WaitFailed => {
            line.append("wait failed");
        },
    }
    line.append("\n");
    assert("\n"@ =~= seq!['\n']);
    line
}

/// The whole seconds that the text of a duration shows, read as a number.
pub open spec fn shown_seconds(nanos: nat) -> nat {
    numeral_value(decimal(nanos / nanos_per_second()))
}

/// The nanoseconds that the text of a duration shows after the point, read as
/// a number.
pub open spec fn shown_nanos(nanos: nat) -> nat {
    numeral_value(fixed_decimal(nanos % nanos_per_second(), 9))
}

/// The two numerals of a rendered duration read back as its whole seconds and
/// its nanoseconds, and the second numeral has nine digits whatever the
/// duration: the numbers shown add up to the duration.
pub proof fn lemma_duration_readback(nanos: nat)
    ensures
        fixed_decimal(nanos % nanos_per_second(), 9).len() == 9,
        shown_seconds(nanos) == nanos / nanos_per_second(),
        shown_nanos(nanos) == nanos % nanos_per_second(),
        shown_seconds(nanos) * nanos_per_second() + shown_nanos(nanos) == nanos,
{
    lemma_decimal_value(nanos / nanos_per_second());
    let fraction = nanos % nanos_per_second();
    lemma_fixed_decimal_value(fraction, 9);
    assert(pow10(9) == 1_000_000_000) by {
        reveal_with_fuel(pow10, 10);
    }
}

/// A longer run renders as a larger number: more whole seconds, or as many
/// and more nanoseconds.
pub proof fn lemma_longer_run_shows_more(shorter: nat, longer: nat)
    requires
        shorter < longer,
    ensures
        shown_seconds(shorter) < shown_seconds(longer) || (shown_seconds(shorter)
            == shown_seconds(longer) && shown_nanos(shorter) < shown_nanos(longer)),
{
    lemma_duration_readback(shorter);
    lemma_duration_readback(longer);
}

/// A numeral starts with a digit.
proof fn lemma_decimal_starts_with_digit(n: nat)
    ensures
        decimal(n).len() >= 1,
        exists|d: nat| d < 10 && decimal(n)[0] == digit_char(d),
    decreases n,
{
    if n < 10 {
        assert(decimal(n)[0] == digit_char(n));
    } else {
        lemma_decimal_starts_with_digit(n / 10);
        let d = choose|d: nat| d < 10 && decimal(n / 10)[0] == digit_char(d);
        assert(decimal(n)[0] == digit_char(d));
    }
}

/// A failure never reads as a duration: a record of a failed invocation cannot
/// be taken for the record of a run.
pub proof fn lemma_failure_is_no_duration(nanos: nat)
    ensures
        duration_text(nanos) != outcome_text(Outcome::SpawnFailed),
        duration_text(nanos) != outcome_text(Outcome::WaitFailed),
{
    reveal_strlit("spawn failed");
    reveal_strlit("wait failed");
    lemma_decimal_starts_with_digit(nanos / nanos_per_second());
    let text = duration_text(nanos);
    assert(text[0] == decimal(nanos / nanos_per_second())[0]);
    assert("spawn failed"@[0] == 's');
    assert("wait failed"@[0] == 'w');
}

} // verus!
