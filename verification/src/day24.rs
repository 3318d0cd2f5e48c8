//! Wire logic: the three bitwise operators of the adder circuit.

use vstd::prelude::*;

verus! {

/// A two-input circuit operator.
#[derive(Debug, Clone, Copy, PartialEq, Eq, Structural)]
pub enum Operator {
    AND,
    OR,
    XOR,
}

/// The value an operator produces from its two wire inputs.
pub open spec fn operator_value(op: Operator, a: u16, b: u16) -> u16 {
    match op {
        Operator::AND => a & b,
        Operator::OR => a | b,
        Operator::XOR => a ^ b,
    }
}

/// Compares a wire-file token with an operator mnemonic.
fn token_eq(a: &str, b: &str) -> (r: bool)
    ensures
        r == (a@ == b@),
{
    let na: usize = a.unicode_len();
    let nb: usize = b.unicode_len();
    if na != nb {
        return false;
    }
    let mut i: usize = 0;
    while i < na
        invariant
            na == a@.len(),
            nb == b@.len(),
            na == nb,
            i <= na,
            forall|x: int| 0 <= x < i ==> a@[x] == b@[x],
        decreases na - i,
    {
        if a.get_char(i) != b.get_char(i) {
            return false;
        }
        i = i + 1;
    }
    proof {
        assert(a@ =~= b@);
    }
    true
}

impl Operator {
    /// Applies the operator to two wire values.
    pub fn apply(&self, a: u16, b: u16) -> (r: u16)
        ensures
            r == operator_value(*self, a, b),
    {
        match self {
            Operator::AND => a & b,
            Operator::OR => a | b,
            Operator::XOR => a ^ b,
        }
    }

    /// Parses an operator mnemonic.
    pub fn from_str(op: &str) -> (r: Operator)
        requires
            op@ == "AND"@ || op@ == "OR"@ || op@ == "XOR"@,
        ensures
            op@ == "AND"@ ==> r == Operator::AND,
            op@ == "OR"@ ==> r == Operator::OR,
            op@ == "XOR"@ ==> r == Operator::XOR,
    {
        proof {
            reveal_strlit("AND");
            reveal_strlit("OR");
            reveal_strlit("XOR");
            assert("AND"@.len() == 3);
            assert("OR"@.len() == 2);
            assert("XOR"@.len() == 3);
            assert("AND"@[0] == 'A');
            assert("XOR"@[0] == 'X');
        }
        if token_eq(op, "AND") {
            Operator::AND
        } else if token_eq(op, "OR") {
            Operator::OR
        } else {
            Operator::XOR
        }
    }
}

} // verus!
