//! The state machine that reads a number literal one character at a time,
//! and the proof that it reads what the number grammar describes.

use vstd::prelude::*;
use crate::number::{
    digit_run, exponent_complete, exponent_len, exponent_sign_len, fraction_len, integer_len,
    is_digit, is_number, lemma_digit_run_bounded, number_complete, number_len, sign_len, starts_exponent, starts_with,
    tail_complete, tail_len,
};

verus! {

/// Where the machine stands in a number literal: what it expects next.
#[derive(Clone, Copy, Debug, PartialEq, Eq, Structural)]
pub enum Step {
    /// An optional `-`.
    Minus,
    /// The first digit of the integer part.
    IntFirst,
    /// More digits of the integer part, a fraction or an exponent.
    Int,
    /// Behind a leading `0`: a fraction or an exponent.
    FracOrExp,
    /// The first digit of the fraction.
    FracFirst,
    /// More digits of the fraction, or an exponent.
    Frac,
    /// An optional sign of the exponent.
    ExpSign,
    /// The first digit of the exponent.
    ExpFirst,
    /// More digits of the exponent.
    Exp,
}

/// What the machine does from some state on: how many characters it reads,
/// and whether it stops where the text read is a number.
pub struct Run {
    pub used: nat,
    pub complete: bool,
}

impl Run {
    /// The same run with `n` characters read before it.
    pub open spec fn shift(self, n: nat) -> Run {
        Run { used: self.used + n, complete: self.complete }
    }
}

impl Step {
    /// True of the states in which the text read so far is a number.
    pub open spec fn accepts(self) -> bool {
        self == Step::Int || self == Step::FracOrExp || self == Step::Frac || self == Step::Exp
    }

    /// Tells whether the text read so far is a number in this state.
    pub fn is_accepting(self) -> (r: bool)
        ensures
            r == self.accepts(),
    {
        match self {
            Step::Int | Step::FracOrExp | Step::Frac | Step::Exp => true,
            Step::Minus
            | Step::IntFirst
            | Step::FracFirst
            | Step::ExpSign
            | Step::ExpFirst => false,
        }
    }

    /// 1 for the states that can be left without reading a character, else 0.
    pub open spec fn rank(self) -> nat {
        if self == Step::Minus || self == Step::ExpSign {
            1
        } else {
            0
        }
    }

    /// The run of the machine from state `self` on the text `s`. In each
    /// state it reads the next character only where the grammar allows that
    /// character there, and stops otherwise.
    pub open spec fn run(self, s: Seq<char>) -> Run
        decreases s.len(), self.rank(),
    {
        if s.len() == 0 {
            Run { used: 0, complete: self.accepts() }
        } else {
            let c = s[0];
            let rest = s.skip(1);
            let stop = Run { used: 0, complete: self.accepts() };
            match self {
                Step::Minus => if c == '-' {
                    Step::IntFirst.run(rest).shift(1)
                } else {
                    Step::IntFirst.run(s)
                },
                Step::IntFirst => if c == '0' {
                    Step::FracOrExp.run(rest).shift(1)
                } else if is_digit(c) {
                    Step::Int.run(rest).shift(1)
                } else {
                    stop
                },
                Step::Int => if c == '.' {
                    Step::FracFirst.run(rest).shift(1)
                } else if c == 'e' || c == 'E' {
                    Step::ExpSign.run(rest).shift(1)
                } else if is_digit(c) {
                    Step::Int.run(rest).shift(1)
                } else {
                    stop
                },
                Step::FracOrExp => if c == '.' {
                    Step::FracFirst.run(rest).shift(1)
                } else if c == 'e' || c == 'E' {
                    Step::ExpSign.run(rest).shift(1)
                } else {
                    stop
                },
                Step::FracFirst => if is_digit(c) {
                    Step::Frac.run(rest).shift(1)
                } else {
                    stop
                },
                Step::Frac => if c == 'e' || c == 'E' {
                    Step::ExpSign.run(rest).shift(1)
                } else if is_digit(c) {
                    Step::Frac.run(rest).shift(1)
                } else {
                    stop
                },
                Step::ExpSign => if c == '+' || c == '-' {
                    Step::ExpFirst.run(rest).shift(1)
                } else if is_digit(c) {
                    Step::ExpFirst.run(s)
                } else {
                    stop
                },
                Step::ExpFirst => if is_digit(c) {
                    Step::Exp.run(rest).shift(1)
                } else {
                    stop
                },
                Step::Exp => if is_digit(c) {
                    Step::Exp.run(rest).shift(1)
                } else {
                    stop
                },
            }
        }
    }
}

/// In the exponent's digits the machine reads the digits that come next.
proof fn lemma_exp(s: Seq<char>)
    ensures
        Step::Exp.run(s) == (Run { used: digit_run(s), complete: true }),
    decreases s.len(),
{
    if s.len() > 0 && is_digit(s[0]) {
        lemma_exp(s.skip(1));
    }
}

/// At the exponent's first digit the machine reads the digits that come
/// next, and needs one at least.
proof fn lemma_exp_first(s: Seq<char>)
    ensures
        Step::ExpFirst.run(s) == (Run { used: digit_run(s), complete: digit_run(s) > 0 }),
{
    if s.len() > 0 && is_digit(s[0]) {
        lemma_exp(s.skip(1));
    }
}

/// Behind an exponent mark the machine reads an optional sign and the
/// digits that come next, and needs one digit at least.
proof fn lemma_exp_sign(s: Seq<char>)
    requires
        starts_exponent(s),
    ensures
        Step::ExpSign.run(s.skip(1)).shift(1) == (Run {
            used: exponent_len(s),
            complete: exponent_complete(s),
        }),
{
    let t = s.skip(1);
    let g = exponent_sign_len(s);
    let digits = s.skip(1 + g as int);
    if t.len() > 0 && g == 1 {
        assert(t.skip(1) =~= digits);
    }
    lemma_exp_first(digits);
}

/// In the fraction's digits the machine reads the digits that come next
/// and the exponent behind them.
proof fn lemma_frac(s: Seq<char>)
    ensures
        Step::Frac.run(s) == (Run {
            used: digit_run(s) + exponent_len(s.skip(digit_run(s) as int)),
            complete: exponent_complete(s.skip(digit_run(s) as int)),
        }),
    decreases s.len(),
{
    if s.len() > 0 && is_digit(s[0]) {
        lemma_frac(s.skip(1));
        lemma_digit_run_bounded(s.skip(1));
        assert(s.skip(1).skip(digit_run(s.skip(1)) as int) =~= s.skip(digit_run(s) as int));
    } else {
        assert(s.skip(0) =~= s);
        if starts_exponent(s) {
            lemma_exp_sign(s);
        }
    }
}

/// At the fraction's first digit the machine reads the fraction's digits
/// and the exponent behind them, or nothing where no digit comes next.
proof fn lemma_frac_first(s: Seq<char>)
    ensures
        Step::FracFirst.run(s) == (if digit_run(s) == 0 {
            Run { used: 0, complete: false }
        } else {
            Run {
                used: digit_run(s) + exponent_len(s.skip(digit_run(s) as int)),
                complete: exponent_complete(s.skip(digit_run(s) as int)),
            }
        }),
{
    if s.len() > 0 && is_digit(s[0]) {
        lemma_frac(s.skip(1));
        lemma_digit_run_bounded(s.skip(1));
        assert(s.skip(1).skip(digit_run(s.skip(1)) as int) =~= s.skip(digit_run(s) as int));
    }
}

/// Behind the integer part the machine reads what the grammar allows
/// there.
proof fn lemma_tail(s: Seq<char>)
    ensures
        Step::FracOrExp.run(s) == (Run { used: tail_len(s), complete: tail_complete(s) }),
        !starts_with(s, '0') && digit_run(s) == 0 ==> Step::Int.run(s) == Step::FracOrExp.run(s),
{
    assert(s.skip(0) =~= s);
    if starts_with(s, '.') {
        let t = s.skip(1);
        lemma_digit_run_bounded(t);
        lemma_frac_first(t);
        assert(t.skip(digit_run(t) as int) =~= s.skip(fraction_len(s) as int));
    } else if starts_exponent(s) {
        lemma_exp_sign(s);
    }
}

/// In the integer part's digits the machine reads the digits that come
/// next and what the grammar allows behind them.
proof fn lemma_int(s: Seq<char>)
    ensures
        Step::Int.run(s) == (Run {
            used: digit_run(s) + tail_len(s.skip(digit_run(s) as int)),
            complete: tail_complete(s.skip(digit_run(s) as int)),
        }),
    decreases s.len(),
{
    if s.len() > 0 && is_digit(s[0]) {
        lemma_int(s.skip(1));
        lemma_digit_run_bounded(s.skip(1));
        assert(s.skip(1).skip(digit_run(s.skip(1)) as int) =~= s.skip(digit_run(s) as int));
    } else {
        assert(s.skip(0) =~= s);
        lemma_tail(s);
    }
}

/// At the integer part's first digit the machine reads the integer part
/// and what the grammar allows behind it, or nothing where no digit comes
/// next.
proof fn lemma_int_first(s: Seq<char>)
    ensures
        Step::IntFirst.run(s) == (if integer_len(s) == 0 {
            Run { used: 0, complete: false }
        } else {
            Run {
                used: integer_len(s) + tail_len(s.skip(integer_len(s) as int)),
                complete: tail_complete(s.skip(integer_len(s) as int)),
            }
        }),
{
    if s.len() > 0 {
        if s[0] == '0' {
            lemma_tail(s.skip(1));
        } else if is_digit(s[0]) {
            lemma_digit_run_bounded(s.skip(1));
            lemma_int(s.skip(1));
            assert(s.skip(1).skip(digit_run(s.skip(1)) as int) =~= s.skip(digit_run(s) as int));
        }
    }
}

/// The machine reads the number literal that the text begins with, and
/// stops in an accepting state exactly where that literal denotes a number.
pub proof fn lemma_machine_reads_literal(s: Seq<char>)
    ensures
        Step::Minus.run(s) == (Run { used: number_len(s), complete: number_complete(s) }),
{
    let a = sign_len(s);
    let t = s.skip(a as int);
    assert(s.skip(0) =~= s);
    lemma_int_first(t);
    lemma_digit_run_bounded(t);
    if integer_len(t) > 0 {
        assert(t.skip(integer_len(t) as int) =~= s.skip((a + integer_len(t)) as int));
    }
}

/// The machine reads no more than there is.
pub proof fn lemma_run_bounded(step: Step, s: Seq<char>)
    ensures
        step.run(s).used <= s.len(),
    decreases s.len(), step.rank(),
{
    if s.len() > 0 {
        let c = s[0];
        let rest = s.skip(1);
        match step {
            Step::Minus => {
                if c == '-' {
                    lemma_run_bounded(Step::IntFirst, rest);
                } else {
                    lemma_run_bounded(Step::IntFirst, s);
                }
            },
            Step::IntFirst => {
                lemma_run_bounded(Step::FracOrExp, rest);
                lemma_run_bounded(Step::Int, rest);
            },
            Step::Int => {
                lemma_run_bounded(Step::FracFirst, rest);
                lemma_run_bounded(Step::ExpSign, rest);
                lemma_run_bounded(Step::Int, rest);
            },
            Step::FracOrExp => {
                lemma_run_bounded(Step::FracFirst, rest);
                lemma_run_bounded(Step::ExpSign, rest);
            },
            Step::FracFirst => {
                lemma_run_bounded(Step::Frac, rest);
            },
            Step::Frac => {
                lemma_run_bounded(Step::ExpSign, rest);
                lemma_run_bounded(Step::Frac, rest);
            },
            Step::ExpSign => {
                if c == '+' || c == '-' {
                    lemma_run_bounded(Step::ExpFirst, rest);
                } else {
                    lemma_run_bounded(Step::ExpFirst, s);
                }
            },
            Step::ExpFirst => {
                lemma_run_bounded(Step::Exp, rest);
            },
            Step::Exp => {
                lemma_run_bounded(Step::Exp, rest);
            },
        }
    }
}

/// The machine looks at nothing behind the character at which it stops: on
/// the text cut off behind what it reads, or anywhere later, it does the
/// same.
pub proof fn lemma_run_prefix(step: Step, s: Seq<char>, n: nat)
    requires
        step.run(s).used <= n <= s.len(),
    ensures
        step.run(s.take(n as int)) == step.run(s),
    decreases s.len(), step.rank(),
{
    let t = s.take(n as int);
    if s.len() > 0 {
        let c = s[0];
        let rest = s.skip(1);
        if n > 0 {
            assert(t.skip(1) =~= rest.take(n - 1));
        }
        match step {
            Step::Minus => {
                if c == '-' {
                    lemma_run_prefix(Step::IntFirst, rest, (n - 1) as nat);
                } else {
                    lemma_run_prefix(Step::IntFirst, s, n);
                }
            },
            Step::IntFirst => {
                if c == '0' {
                    lemma_run_prefix(Step::FracOrExp, rest, (n - 1) as nat);
                } else if is_digit(c) {
                    lemma_run_prefix(Step::Int, rest, (n - 1) as nat);
                }
            },
            Step::Int => {
                if c == '.' {
                    lemma_run_prefix(Step::FracFirst, rest, (n - 1) as nat);
                } else if c == 'e' || c == 'E' {
                    lemma_run_prefix(Step::ExpSign, rest, (n - 1) as nat);
                } else if is_digit(c) {
                    lemma_run_prefix(Step::Int, rest, (n - 1) as nat);
                }
            },
            Step::FracOrExp => {
                if c == '.' {
                    lemma_run_prefix(Step::FracFirst, rest, (n - 1) as nat);
                } else if c == 'e' || c == 'E' {
                    lemma_run_prefix(Step::ExpSign, rest, (n - 1) as nat);
                }
            },
            Step::FracFirst => {
                if is_digit(c) {
                    lemma_run_prefix(Step::Frac, rest, (n - 1) as nat);
                }
            },
            Step::Frac => {
                if c == 'e' || c == 'E' {
                    lemma_run_prefix(Step::ExpSign, rest, (n - 1) as nat);
                } else if is_digit(c) {
                    lemma_run_prefix(Step::Frac, rest, (n - 1) as nat);
                }
            },
            Step::ExpSign => {
                if c == '+' || c == '-' {
                    lemma_run_prefix(Step::ExpFirst, rest, (n - 1) as nat);
                } else if is_digit(c) {
                    lemma_run_bounded(Step::ExpFirst, s);
                    lemma_run_prefix(Step::ExpFirst, s, n);
                }
            },
            Step::ExpFirst => {
                if is_digit(c) {
                    lemma_run_prefix(Step::Exp, rest, (n - 1) as nat);
                }
            },
            Step::Exp => {
                if is_digit(c) {
                    lemma_run_prefix(Step::Exp, rest, (n - 1) as nat);
                }
            },
        }
    }
}

/// The literal that a text begins with is within the text, and where it
/// denotes a number it is a number by itself.
pub proof fn lemma_literal_is_number(s: Seq<char>)
    ensures
        number_len(s) <= s.len(),
        number_complete(s) ==> is_number(s.take(number_len(s) as int)),
{
    lemma_machine_reads_literal(s);
    lemma_run_bounded(Step::Minus, s);
    lemma_run_prefix(Step::Minus, s, number_len(s));
    lemma_machine_reads_literal(s.take(number_len(s) as int));
}

/// True of the characters that can stand inside a number literal.
pub open spec fn extends_number(c: char) -> bool {
    is_digit(c) || c == '.' || c == 'e' || c == 'E' || c == '+' || c == '-'
}

/// True where a number literal that stands before `rest` ends there: at the
/// end of the text, or before a character that cannot stand in a literal.
pub open spec fn ends_number(rest: Seq<char>) -> bool {
    rest.len() == 0 || !extends_number(rest[0])
}

/// Where the machine reads the whole of `literal` and accepts it, it reads
/// the same before any text at which a literal ends.
proof fn lemma_run_extend(step: Step, literal: Seq<char>, rest: Seq<char>)
    requires
        step.run(literal) == (Run { used: literal.len(), complete: true }),
        ends_number(rest),
    ensures
        step.run(literal + rest) == (Run { used: literal.len(), complete: true }),
    decreases literal.len(), step.rank(),
{
    let s = literal + rest;
    if literal.len() > 0 {
        let c = literal[0];
        let tail = literal.skip(1);
        assert(s.skip(1) =~= tail + rest);
        match step {
            Step::Minus => {
                if c == '-' {
                    lemma_run_extend(Step::IntFirst, tail, rest);
                } else {
                    lemma_run_extend(Step::IntFirst, literal, rest);
                }
            },
            Step::IntFirst => {
                if c == '0' {
                    lemma_run_extend(Step::FracOrExp, tail, rest);
                } else if is_digit(c) {
                    lemma_run_extend(Step::Int, tail, rest);
                }
            },
            Step::Int => {
                if c == '.' {
                    lemma_run_extend(Step::FracFirst, tail, rest);
                } else if c == 'e' || c == 'E' {
                    lemma_run_extend(Step::ExpSign, tail, rest);
                } else if is_digit(c) {
                    lemma_run_extend(Step::Int, tail, rest);
                }
            },
            Step::FracOrExp => {
                if c == '.' {
                    lemma_run_extend(Step::FracFirst, tail, rest);
                } else if c == 'e' || c == 'E' {
                    lemma_run_extend(Step::ExpSign, tail, rest);
                }
            },
            Step::FracFirst => {
                if is_digit(c) {
                    lemma_run_extend(Step::Frac, tail, rest);
                }
            },
            Step::Frac => {
                if c == 'e' || c == 'E' {
                    lemma_run_extend(Step::ExpSign, tail, rest);
                } else if is_digit(c) {
                    lemma_run_extend(Step::Frac, tail, rest);
                }
            },
            Step::ExpSign => {
                if c == '+' || c == '-' {
                    lemma_run_extend(Step::ExpFirst, tail, rest);
                } else if is_digit(c) {
                    lemma_run_extend(Step::ExpFirst, literal, rest);
                }
            },
            Step::ExpFirst => {
                if is_digit(c) {
                    lemma_run_extend(Step::Exp, tail, rest);
                }
            },
            Step::Exp => {
                if is_digit(c) {
                    lemma_run_extend(Step::Exp, tail, rest);
                }
            },
        }
    }
}

/// True where the literal `literal`, standing before `rest`, does not go on
/// into `rest`: the number grammar cannot follow the text further than to
/// the end of the literal.
pub open spec fn number_ends(literal: Seq<char>, rest: Seq<char>) -> bool {
    number_len(literal + rest) == literal.len()
}

/// A number literal does not go on into a text at which a literal ends.
pub proof fn lemma_number_ends(literal: Seq<char>, rest: Seq<char>)
    requires
        is_number(literal),
        ends_number(rest),
    ensures
        number_ends(literal, rest),
{
    lemma_machine_reads_literal(literal);
    lemma_run_extend(Step::Minus, literal, rest);
    lemma_machine_reads_literal(literal + rest);
}

/// A number literal that does not go on into the text behind it is read as
/// it stands.
pub proof fn lemma_number_before(literal: Seq<char>, rest: Seq<char>)
    requires
        is_number(literal),
        number_ends(literal, rest),
    ensures
        number_complete(literal + rest),
        literal.len() > 0,
        literal[0] == '-' || is_digit(literal[0]),
{
    let s = literal + rest;
    lemma_machine_reads_literal(literal);
    lemma_machine_reads_literal(s);
    lemma_run_prefix(Step::Minus, s, literal.len());
    assert(s.take(literal.len() as int) =~= literal);
}

/// The literal that a text begins with is a literal that does not go on
/// into what follows it.
pub proof fn lemma_literal_ends(s: Seq<char>)
    ensures
        number_len(s) <= s.len(),
        number_ends(s.take(number_len(s) as int), s.skip(number_len(s) as int)),
{
    lemma_literal_is_number(s);
    let n = number_len(s) as int;
    assert(s.take(n) + s.skip(n) =~= s);
}

} // verus!
