//! The four arithmetic operators and their button labels.

use vstd::prelude::*;

verus! {

/// An arithmetic operator that a key press can select.
#[derive(Copy, Clone, Debug, PartialEq, Eq, Structural)]
pub enum MathOperator {
    Add,
    Subtract,
    Multiply,
    Divide,
}

/// The label that stands for an operator on its button and in the display.
pub open spec fn operator_label(op: MathOperator) -> Seq<char> {
    match op {
        MathOperator::Add => seq!['+'],
        MathOperator::Subtract => seq!['-'],
        MathOperator::Multiply => seq!['x'],
        MathOperator::Divide => seq!['÷', ' '],
    }
}

impl MathOperator {
    /// The operator's label as text.
    pub fn as_str(&self) -> (label: &'static str)
        ensures
            label@ == operator_label(*self),
    {
        proof {
            reveal_strlit("+");
            reveal_strlit("-");
            reveal_strlit("x");
            reveal_strlit("÷ ");
        }
        let label = match self {
            MathOperator::Add => "+",
            MathOperator::Subtract => "-",
            MathOperator::Multiply => "x",
            MathOperator::Divide => "÷ ",
        };
        assert(label@ =~= operator_label(*self));
        label
    }
}

} // verus!
