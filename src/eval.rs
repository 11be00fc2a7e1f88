//! Cells, the numbers read from them, and the condition evaluator.
use vstd::prelude::*;

use crate::query::{Operator, OperatorModel};
use crate::text::{
    chars_of, has_infix, is_infix, less_text, lower_chars, lower_of, same_chars, text_lt,
};

verus! {

/// A double read from a cell, held as its sign bit and its other 63 bits
/// (exponent and fraction). For two doubles that are not NaN, the order of
/// these bits as an integer, signed by the sign bit, is the order of the
/// numbers; both zeros are equal.
#[derive(PartialEq, Eq, Structural, Clone, Copy, Debug)]
pub struct Number {
    pub negative: bool,
    pub magnitude: u64,
}

impl Number {
    /// The number whose IEEE-754 double encoding is `bits`: the top bit is the
    /// sign, the other 63 the magnitude.
    pub fn from_bits(bits: u64) -> (r: Number)
        ensures
            r.negative == (bits >= 0x8000_0000_0000_0000),
            r.magnitude == bits % 0x8000_0000_0000_0000,
    {
        Number { negative: bits >= 0x8000_0000_0000_0000, magnitude: bits % 0x8000_0000_0000_0000 }
    }
}

/// The bits of an infinite magnitude; a greater one is NaN.
pub const INFINITY_BITS: u64 = 0x7FF0_0000_0000_0000;

pub open spec fn is_nan(n: Number) -> bool {
    n.magnitude > INFINITY_BITS
}

/// The place of a number that is not NaN on the number line, as an integer.
pub open spec fn order_key(n: Number) -> int {
    if n.negative {
        -(n.magnitude as int)
    } else {
        n.magnitude as int
    }
}

/// Whether `a < b` holds of the two doubles.
pub open spec fn num_lt(a: Number, b: Number) -> bool {
    !is_nan(a) && !is_nan(b) && order_key(a) < order_key(b)
}

pub fn number_less(a: Number, b: Number) -> (r: bool)
    ensures
        r == num_lt(a, b),
{
    if a.magnitude > INFINITY_BITS || b.magnitude > INFINITY_BITS {
        return false;
    }
    match (a.negative, b.negative) {
        (false, false) => a.magnitude < b.magnitude,
        (true, true) => b.magnitude < a.magnitude,
        (true, false) => a.magnitude > 0 || b.magnitude > 0,
        (false, true) => false,
    }
}

/// One cell of a table: its text, and the double it reads as, if it reads as
/// one.
#[derive(Debug)]
pub struct Cell {
    pub text: String,
    pub number: Option<Number>,
}

pub fn copy_cell(c: &Cell) -> (r: Cell)
    ensures
        r == *c,
{
    Cell { text: c.text.clone(), number: c.number }
}

/// Whether `cell > lit`: as numbers where both are numbers, else as texts.
pub open spec fn greater(cell: Seq<char>, cn: Option<Number>, lit: Seq<char>, ln: Option<Number>) -> bool {
    match (cn, ln) {
        (Some(a), Some(b)) => num_lt(b, a),
        _ => text_lt(lit, cell),
    }
}

/// Whether a cell meets a condition with literal `lit`.
pub open spec fn holds(
    cell: Seq<char>,
    cn: Option<Number>,
    op: OperatorModel,
    lit: Seq<char>,
    ln: Option<Number>,
) -> bool {
    match op {
        OperatorModel::Equals => lower_of(cell) == lower_of(lit),
        OperatorModel::GreaterThan => greater(cell, cn, lit, ln),
        OperatorModel::LessThan => greater(lit, ln, cell, cn),
        OperatorModel::Contains => is_infix(lower_of(lit), lower_of(cell)),
        OperatorModel::RawToken(t) => if t == "="@ || t == "=="@ {
            lower_of(cell) == lower_of(lit)
        } else if t == ">"@ {
            greater(cell, cn, lit, ln)
        } else if t == "<"@ {
            greater(lit, ln, cell, cn)
        } else {
            false
        },
    }
}

fn greater_exec(cell: &Vec<char>, cn: Option<Number>, lit: &Vec<char>, ln: Option<Number>) -> (r: bool)
    ensures
        r == greater(cell@, cn, lit@, ln),
{
    match (cn, ln) {
        (Some(a), Some(b)) => number_less(b, a),
        _ => less_text(lit, cell),
    }
}

fn equal_folded(cell: &Vec<char>, lit: &Vec<char>) -> (r: bool)
    ensures
        r == (lower_of(cell@) == lower_of(lit@)),
{
    let a = lower_chars(cell);
    let b = lower_chars(lit);
    same_chars(&a, &b)
}

fn token_is(t: &String, k: &str) -> (r: bool)
    ensures
        r == (t@ == k@),
{
    let a = chars_of(t.as_str());
    let b = chars_of(k);
    same_chars(&a, &b)
}

/// Decides whether a cell meets the condition `op` with literal `lit`.
pub fn check_condition(cell: &Cell, op: &Operator, lit: &Cell) -> (r: bool)
    ensures
        r == holds(cell.text@, cell.number, op@, lit.text@, lit.number),
{
    let c = chars_of(cell.text.as_str());
    let l = chars_of(lit.text.as_str());
    match op {
        Operator::Equals => equal_folded(&c, &l),
        Operator::GreaterThan => greater_exec(&c, cell.number, &l, lit.number),
        Operator::LessThan => greater_exec(&l, lit.number, &c, cell.number),
        Operator::Contains => {
            let a = lower_chars(&c);
            let b = lower_chars(&l);
            has_infix(&b, &a)
        },
        Operator::RawToken(t) => {
            if token_is(t, "=") || token_is(t, "==") {
                equal_folded(&c, &l)
            } else if token_is(t, ">") {
                greater_exec(&c, cell.number, &l, lit.number)
            } else if token_is(t, "<") {
                greater_exec(&l, lit.number, &c, cell.number)
            } else {
                false
            }
        },
    }
}

} // verus!
